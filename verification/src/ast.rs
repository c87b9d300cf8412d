//! The Scheme surface syntax, after reading and before lowering.
use crate::ir::{first_repeat, names_of};
use crate::sexpr::{lemma_sterms_of, sterm_of, sterms_of, SExpr, STerm};
use crate::text::{decimal, push_decimal, push_str, text_is};
use crate::CompileError;
use vstd::prelude::*;

verus! {

#[derive(Debug, PartialEq, Eq)]
pub struct Program {
    pub definitions: Vec<Definition>,
    pub graphs: Vec<GraphDefinition>,
    /// The optional final top-level expression becomes generated Bend `main`.
    pub body: Option<Expr>,
}

/// A statically declared weighted graph.
///
/// Node values are scalar sums of weighted predecessor values. `inputs` are
/// supplied as function arguments and `outputs` are returned as a list. The
/// graph is deliberately structural: zero-weight edges are not represented.
#[derive(Debug, PartialEq, Eq)]
pub struct GraphDefinition {
    pub name: String,
    pub nodes: usize,
    pub inputs: Vec<usize>,
    pub outputs: Vec<usize>,
    pub edges: Vec<GraphEdge>,
}

#[derive(Debug, Clone, Copy, PartialEq, Eq)]
pub struct GraphEdge {
    pub src: usize,
    pub dst: usize,
    pub weight: i64,
}

#[derive(Debug, PartialEq, Eq)]
pub struct Definition {
    pub name: String,
    pub value: Expr,
}

#[derive(Debug, PartialEq, Eq)]
pub enum Expr {
    Number(i64),
    Bool(bool),
    Var(String),
    Lambda { params: Vec<String>, body: Box<Expr> },
    Apply { function: Box<Expr>, args: Vec<Expr> },
    If { condition: Box<Expr>, then_branch: Box<Expr>, else_branch: Box<Expr> },
    Let { bindings: Vec<(String, Expr)>, body: Box<Expr> },
    Cons(Box<Expr>, Box<Expr>),
    Car(Box<Expr>),
    Cdr(Box<Expr>),
    Null(Box<Expr>),
    Nil,
}

impl GraphDefinition {
    /// Every node that the graph names lies in `0..nodes`.
    pub open spec fn in_range(&self) -> bool {
        &&& forall|i: int| 0 <= i < self.inputs.len() ==> self.inputs@[i] < self.nodes
        &&& forall|i: int| 0 <= i < self.outputs.len() ==> self.outputs@[i] < self.nodes
        &&& forall|i: int|
            0 <= i < self.edges.len() ==> self.edges@[i].src < self.nodes && self.edges@[i].dst
                < self.nodes
    }
}


/// The mathematical value of an [`Expr`]: names are character sequences and
/// children are sequences.
pub enum AstTerm {
    Number(i64),
    Bool(bool),
    Var(Seq<char>),
    Lambda { params: Seq<Seq<char>>, body: Box<AstTerm> },
    Apply { function: Box<AstTerm>, args: Seq<AstTerm> },
    If { condition: Box<AstTerm>, then_branch: Box<AstTerm>, else_branch: Box<AstTerm> },
    Let { bindings: Seq<(Seq<char>, AstTerm)>, body: Box<AstTerm> },
    Cons(Box<AstTerm>, Box<AstTerm>),
    Car(Box<AstTerm>),
    Cdr(Box<AstTerm>),
    Null(Box<AstTerm>),
    Nil,
}

pub open spec fn ast_of(e: Expr) -> AstTerm
    decreases e,
{
    match e {
        Expr::Number(n) => AstTerm::Number(n),
        Expr::Bool(b) => AstTerm::Bool(b),
        Expr::Var(v) => AstTerm::Var(v@),
        Expr::Lambda { params, body } => AstTerm::Lambda {
            params: crate::ir::names_of(params@),
            body: Box::new(ast_of(*body)),
        },
        Expr::Apply { function, args } => AstTerm::Apply { function: Box::new(ast_of(*function)), args: asts_of(args@) },
        Expr::If { condition, then_branch, else_branch } => AstTerm::If {
            condition: Box::new(ast_of(*condition)),
            then_branch: Box::new(ast_of(*then_branch)),
            else_branch: Box::new(ast_of(*else_branch)),
        },
        Expr::Let { bindings, body } => AstTerm::Let { bindings: ast_bindings_of(bindings@), body: Box::new(ast_of(*body)) },
        Expr::Cons(a, b) => AstTerm::Cons(Box::new(ast_of(*a)), Box::new(ast_of(*b))),
        Expr::Car(v) => AstTerm::Car(Box::new(ast_of(*v))),
        Expr::Cdr(v) => AstTerm::Cdr(Box::new(ast_of(*v))),
        Expr::Null(v) => AstTerm::Null(Box::new(ast_of(*v))),
        Expr::Nil => AstTerm::Nil,
    }
}

pub open spec fn asts_of(s: Seq<Expr>) -> Seq<AstTerm>
    decreases s,
{
    if s.len() == 0 {
        Seq::empty()
    } else {
        asts_of(s.drop_last()).push(ast_of(s.last()))
    }
}

pub open spec fn ast_bindings_of(s: Seq<(String, Expr)>) -> Seq<(Seq<char>, AstTerm)>
    decreases s,
{
    if s.len() == 0 {
        Seq::empty()
    } else {
        ast_bindings_of(s.drop_last()).push((s.last().0@, ast_of(s.last().1)))
    }
}

impl View for Expr {
    type V = AstTerm;

    open spec fn view(&self) -> AstTerm {
        ast_of(*self)
    }
}

pub proof fn lemma_asts_of(s: Seq<Expr>)
    ensures
        asts_of(s).len() == s.len(),
        forall|i: int| 0 <= i < s.len() ==> #[trigger] asts_of(s)[i] == ast_of(s[i]),
    decreases s.len(),
{
    if s.len() > 0 {
        lemma_asts_of(s.drop_last());
    }
}

pub proof fn lemma_ast_bindings_of(s: Seq<(String, Expr)>)
    ensures
        ast_bindings_of(s).len() == s.len(),
        forall|i: int| 0 <= i < s.len() ==> #[trigger] ast_bindings_of(s)[i] == (s[i].0@, ast_of(s[i].1)),
    decreases s.len(),
{
    if s.len() > 0 {
        lemma_ast_bindings_of(s.drop_last());
    }
}

/// The mathematical value of a [`Definition`].
pub struct AstDef {
    pub name: Seq<char>,
    pub value: AstTerm,
}

impl View for Definition {
    type V = AstDef;

    open spec fn view(&self) -> AstDef {
        AstDef { name: self.name@, value: self.value@ }
    }
}

pub open spec fn ast_defs_of(s: Seq<Definition>) -> Seq<AstDef> {
    s.map_values(|d: Definition| d@)
}


// ---------------------------------------------------------------------------
// Names
// ---------------------------------------------------------------------------

/// The words the language leaves out on purpose: mutation, control
/// operators, macros, exceptions and I/O.
pub open spec fn forbidden(name: Seq<char>) -> bool {
    ||| name == "set!"@
    ||| name == "set-car!"@
    ||| name == "set-cdr!"@
    ||| name == "call/cc"@
    ||| name == "eq?"@
    ||| name == "define-syntax"@
    ||| name == "syntax-rules"@
    ||| name == "with-exception-handler"@
    ||| name == "raise"@
    ||| name == "display"@
    ||| name == "newline"@
    ||| name == "read"@
}

pub open spec fn outside_error(name: Seq<char>) -> Seq<char> {
    "`"@ + name + "` is intentionally outside scheme-bend"@
}

/// A name the language accepts as an identifier.
pub open spec fn valid_name_of(name: Seq<char>) -> Result<Seq<char>, Seq<char>> {
    if forbidden(name) {
        Err(outside_error(name))
    } else if name.len() == 0 {
        Err("empty identifier"@)
    } else {
        Ok(name)
    }
}

/// The identifier a form names.
pub open spec fn symbol_of(t: STerm) -> Result<Seq<char>, Seq<char>> {
    match t {
        STerm::Symbol(s) => valid_name_of(s),
        _ => Err("expected an identifier"@),
    }
}

/// The identifiers of a sequence of forms, or the first problem.
pub open spec fn symbols_of(s: Seq<STerm>) -> Result<Seq<Seq<char>>, Seq<char>>
    decreases s.len(),
{
    if s.len() == 0 {
        Ok(Seq::empty())
    } else {
        match symbols_of(s.drop_last()) {
            Err(m) => Err(m),
            Ok(front) => match symbol_of(s.last()) {
                Err(m) => Err(m),
                Ok(x) => Ok(front.push(x)),
            },
        }
    }
}

pub open spec fn duplicate_error(description: Seq<char>, name: Seq<char>) -> Seq<char> {
    "duplicate "@ + description + ": `"@ + name + "`"@
}

/// The diagnostic for the first repeated name, if any.
pub open spec fn distinct_error(names: Seq<Seq<char>>, description: Seq<char>) -> Option<Seq<char>> {
    match first_repeat(names) {
        Some(name) => Some(duplicate_error(description, name)),
        None => None,
    }
}

/// Whether `name` is one of the words left out on purpose.
pub fn is_forbidden(name: &String) -> (r: bool)
    ensures
        r == forbidden(name@),
{
    text_is(name, "set!") || text_is(name, "set-car!") || text_is(name, "set-cdr!") || text_is(name, "call/cc")
        || text_is(name, "eq?") || text_is(name, "define-syntax") || text_is(name, "syntax-rules") || text_is(
        name,
        "with-exception-handler",
    ) || text_is(name, "raise") || text_is(name, "display") || text_is(name, "newline") || text_is(name, "read")
}

fn outside(name: &String) -> (e: CompileError)
    ensures
        e.0@ == outside_error(name@),
{
    let mut message = String::new();
    push_str(&mut message, "`");
    push_str(&mut message, name.as_str());
    push_str(&mut message, "` is intentionally outside scheme-bend");
    proof { assert(message@ =~= outside_error(name@)); }
    CompileError(message)
}

/// Refuse a word the language leaves out on purpose.
pub fn reject_forbidden(name: &String) -> (r: Result<(), CompileError>)
    ensures
        forbidden(name@) ==> (r matches Err(e) && e.0@ == outside_error(name@)),
        !forbidden(name@) ==> r is Ok,
{
    if is_forbidden(name) {
        Err(outside(name))
    } else {
        Ok(())
    }
}

/// `name` as an identifier.
pub fn valid_name(name: &String) -> (r: Result<String, CompileError>)
    ensures
        match valid_name_of(name@) {
            Ok(n) => r matches Ok(s) && s@ == n,
            Err(m) => r matches Err(e) && e.0@ == m,
        },
{
    reject_forbidden(name)?;
    if name.as_str().unicode_len() == 0 {
        Err(crate::error("empty identifier"))
    } else {
        Ok(name.clone())
    }
}

/// The identifier a form names.
pub fn symbol(expr: &SExpr) -> (r: Result<String, CompileError>)
    ensures
        match symbol_of(expr@) {
            Ok(n) => r matches Ok(s) && s@ == n,
            Err(m) => r matches Err(e) && e.0@ == m,
        },
{
    match expr {
        SExpr::Symbol(s) => valid_name(s),
        _ => Err(crate::error("expected an identifier")),
    }
}

/// The identifiers of `forms[from..]`.
fn symbols(forms: &Vec<SExpr>, from: usize) -> (r: Result<Vec<String>, CompileError>)
    requires
        from <= forms.len(),
    ensures
        match symbols_of(sterms_of(forms@).skip(from as int)) {
            Ok(ns) => r matches Ok(v) && names_of(v@) == ns,
            Err(m) => r matches Err(e) && e.0@ == m,
        },
{
    proof { lemma_sterms_of(forms@); }
    let ghost all = sterms_of(forms@).skip(from as int);
    let mut out: Vec<String> = Vec::new();
    let mut i: usize = from;
    proof { assert(names_of(out@) =~= Seq::empty()); assert(all.take(0) =~= Seq::empty()); }
    while i < forms.len()
        invariant
            from <= i <= forms.len(),
            all == sterms_of(forms@).skip(from as int),
            sterms_of(forms@).len() == forms@.len(),
            forall|j: int| 0 <= j < forms@.len() ==> #[trigger] sterms_of(forms@)[j] == sterm_of(forms@[j]),
            symbols_of(all.take(i - from)) == Ok::<Seq<Seq<char>>, Seq<char>>(names_of(out@)),
        decreases forms.len() - i,
    {
        proof {
            assert(all.take(i - from + 1).drop_last() =~= all.take(i - from));
            assert(all.take(i - from + 1).last() == sterm_of(forms@[i as int]));
        }
        match symbol(&forms[i]) {
            Ok(n) => {
                let ghost before = out@;
                out.push(n);
                proof { assert(names_of(out@) =~= names_of(before).push(out@.last()@)); }
            },
            Err(e) => {
                proof { lemma_symbols_error(all, i - from + 1); }
                return Err(e);
            },
        }
        i = i + 1;
    }
    proof { assert(all.take(forms.len() - from) =~= all); }
    Ok(out)
}

proof fn lemma_symbols_error(s: Seq<STerm>, k: int)
    requires
        0 <= k <= s.len(),
        symbols_of(s.take(k)) is Err,
    ensures
        symbols_of(s) == symbols_of(s.take(k)),
    decreases s.len() - k,
{
    if k < s.len() {
        assert(s.take(k + 1).drop_last() =~= s.take(k));
        lemma_symbols_error(s, k + 1);
    } else {
        assert(s.take(k) =~= s);
    }
}

proof fn lemma_first_repeat_prefix(s: Seq<Seq<char>>, k: int)
    requires
        0 <= k <= s.len(),
        first_repeat(s.take(k)) is Some,
    ensures
        first_repeat(s) == first_repeat(s.take(k)),
    decreases s.len() - k,
{
    if k < s.len() {
        assert(s.take(k + 1).drop_last() =~= s.take(k));
        lemma_first_repeat_prefix(s, k + 1);
    } else {
        assert(s.take(k) =~= s);
    }
}

/// Refuse a repeated name among `names`.
pub fn ensure_distinct(names: &Vec<String>, description: &str) -> (r: Result<(), CompileError>)
    ensures
        match distinct_error(names_of(names@), description@) {
            Some(m) => r matches Err(e) && e.0@ == m,
            None => r is Ok,
        },
{
    let ghost all = names_of(names@);
    let mut seen: Vec<String> = Vec::new();
    let mut k: usize = 0;
    proof { assert(names_of(seen@) =~= all.take(0)); }
    while k < names.len()
        invariant
            k <= names.len(),
            all == names_of(names@),
            names_of(seen@) == all.take(k as int),
            first_repeat(all.take(k as int)) is None,
        decreases names.len() - k,
    {
        proof { assert(all.take(k + 1).drop_last() =~= all.take(k as int)); }
        if crate::optimize::mentions(&seen, &names[k]) {
            let mut message = String::new();
            push_str(&mut message, "duplicate ");
            push_str(&mut message, description);
            push_str(&mut message, ": `");
            push_str(&mut message, names[k].as_str());
            push_str(&mut message, "`");
            proof {
                assert(all.take(k + 1).last() == all[k as int]);
                assert(first_repeat(all.take(k + 1)) == Some(all[k as int]));
                lemma_first_repeat_prefix(all, k + 1);
                assert(message@ =~= duplicate_error(description@, all[k as int]));
            }
            return Err(CompileError(message));
        }
        let ghost before = seen@;
        seen.push(names[k].clone());
        proof { assert(names_of(seen@) =~= names_of(before).push(all[k as int])); }
        k = k + 1;
    }
    proof { assert(all.take(names.len() as int) =~= all); }
    Ok(())
}


// ---------------------------------------------------------------------------
// Expressions
// ---------------------------------------------------------------------------

/// The symbol a list starts with, if it starts with one.
pub open spec fn head_of(items: Seq<STerm>) -> Option<Seq<char>> {
    if items.len() > 0 {
        match items[0] {
            STerm::Symbol(s) => Some(s),
            _ => None,
        }
    } else {
        None
    }
}

/// The expression a form denotes, or the first problem with it.
pub open spec fn parse_term(t: STerm) -> Result<AstTerm, Seq<char>>
    decreases t,
{
    match t {
        STerm::Number(n) => Ok(AstTerm::Number(n)),
        STerm::Bool(b) => Ok(AstTerm::Bool(b)),
        STerm::Symbol(s) => if forbidden(s) {
            Err(outside_error(s))
        } else {
            Ok(AstTerm::Var(s))
        },
        STerm::List(items) => if items.len() == 0 {
            Ok(AstTerm::Nil)
        } else {
            parse_list(items)
        },
    }
}

/// The expression a non-empty list denotes: a special form by its head, or
/// an application.
pub open spec fn parse_list(items: Seq<STerm>) -> Result<AstTerm, Seq<char>>
    decreases items,
{
    let h = head_of(items);
    if items.len() == 0 {
        Ok(AstTerm::Nil)
    } else if h == Some("lambda"@) {
        if items.len() != 3 {
            Err("lambda expects parameters and exactly one body expression"@)
        } else {
            match items[1] {
                STerm::List(ps) => match symbols_of(ps) {
                    Err(m) => Err(m),
                    Ok(params) => match distinct_error(params, "lambda parameters"@) {
                        Some(m) => Err(m),
                        None => match parse_term(items[2]) {
                            Err(m) => Err(m),
                            Ok(b) => Ok(AstTerm::Lambda { params, body: Box::new(b) }),
                        },
                    },
                },
                _ => Err("lambda parameters must be a list"@),
            }
        }
    } else if h == Some("if"@) {
        if items.len() != 4 {
            Err("if expects condition, then, and else expressions"@)
        } else {
            match parse_term(items[1]) {
                Err(m) => Err(m),
                Ok(c) => match parse_term(items[2]) {
                    Err(m) => Err(m),
                    Ok(a) => match parse_term(items[3]) {
                        Err(m) => Err(m),
                        Ok(b) => Ok(
                            AstTerm::If { condition: Box::new(c), then_branch: Box::new(a), else_branch: Box::new(b) },
                        ),
                    },
                },
            }
        }
    } else if h == Some("let"@) {
        if items.len() != 3 {
            Err("let expects bindings and exactly one body expression"@)
        } else {
            match items[1] {
                STerm::List(bs) => match parse_bindings(bs) {
                    Err(m) => Err(m),
                    Ok(parsed) => match distinct_error(
                        parsed.map_values(|p: (Seq<char>, AstTerm)| p.0),
                        "let bindings"@,
                    ) {
                        Some(m) => Err(m),
                        None => match parse_term(items[2]) {
                            Err(m) => Err(m),
                            Ok(b) => Ok(AstTerm::Let { bindings: parsed, body: Box::new(b) }),
                        },
                    },
                },
                _ => Err("let bindings must be a list"@),
            }
        }
    } else if h == Some("cons"@) {
        if items.len() != 3 {
            Err("cons expects two arguments"@)
        } else {
            match parse_term(items[1]) {
                Err(m) => Err(m),
                Ok(a) => match parse_term(items[2]) {
                    Err(m) => Err(m),
                    Ok(b) => Ok(AstTerm::Cons(Box::new(a), Box::new(b))),
                },
            }
        }
    } else if h == Some("car"@) || h == Some("cdr"@) || h == Some("null?"@) {
        if items.len() != 2 {
            Err(h.unwrap() + " expects one argument"@)
        } else {
            match parse_term(items[1]) {
                Err(m) => Err(m),
                Ok(a) => Ok(
                    if h == Some("car"@) {
                        AstTerm::Car(Box::new(a))
                    } else if h == Some("cdr"@) {
                        AstTerm::Cdr(Box::new(a))
                    } else {
                        AstTerm::Null(Box::new(a))
                    },
                ),
            }
        }
    } else if h matches Some(w) && forbidden(w) {
        Err(outside_error(h.unwrap()))
    } else {
        match parse_term(items[0]) {
            Err(m) => Err(m),
            Ok(f) => match parse_terms(items.drop_first()) {
                Err(m) => Err(m),
                Ok(args) => Ok(AstTerm::Apply { function: Box::new(f), args }),
            },
        }
    }
}

/// The expressions of a sequence of forms, or the first problem.
pub open spec fn parse_terms(s: Seq<STerm>) -> Result<Seq<AstTerm>, Seq<char>>
    decreases s,
{
    if s.len() == 0 {
        Ok(Seq::empty())
    } else {
        match parse_terms(s.drop_last()) {
            Err(m) => Err(m),
            Ok(front) => match parse_term(s.last()) {
                Err(m) => Err(m),
                Ok(x) => Ok(front.push(x)),
            },
        }
    }
}

/// The bindings of a `let`, each `(name expression)`, or the first problem.
pub open spec fn parse_bindings(s: Seq<STerm>) -> Result<Seq<(Seq<char>, AstTerm)>, Seq<char>>
    decreases s,
{
    if s.len() == 0 {
        Ok(Seq::empty())
    } else {
        match parse_bindings(s.drop_last()) {
            Err(m) => Err(m),
            Ok(front) => match s.last() {
                STerm::List(pair) => if pair.len() != 2 {
                    Err("each let binding must be (name expression)"@)
                } else {
                    match symbol_of(pair[0]) {
                        Err(m) => Err(m),
                        Ok(n) => match parse_term(pair[1]) {
                            Err(m) => Err(m),
                            Ok(v) => Ok(front.push((n, v))),
                        },
                    }
                },
                _ => Err("each let binding must be (name expression)"@),
            },
        }
    }
}

/// `r` is the parse result `s`.
pub open spec fn parses_to(r: Result<Expr, CompileError>, s: Result<AstTerm, Seq<char>>) -> bool {
    match s {
        Ok(t) => r matches Ok(e) && e@ == t,
        Err(m) => r matches Err(err) && err.0@ == m,
    }
}


/// The symbol a list starts with, if it starts with one.
fn head_symbol(items: &Vec<SExpr>) -> (r: Option<&String>)
    ensures
        match head_of(sterms_of(items@)) {
            Some(h) => r matches Some(s) && s@ == h,
            None => r is None,
        },
{
    proof { lemma_sterms_of(items@); }
    if items.len() == 0 {
        return None;
    }
    match &items[0] {
        SExpr::Symbol(s) => Some(s),
        _ => None,
    }
}

/// The expressions of `items[from..]`.
fn parse_exprs(items: &Vec<SExpr>, from: usize) -> (r: Result<Vec<Expr>, CompileError>)
    requires
        from <= items.len(),
    ensures
        match parse_terms(sterms_of(items@).skip(from as int)) {
            Ok(v) => r matches Ok(es) && asts_of(es@) == v,
            Err(m) => r matches Err(e) && e.0@ == m,
        },
    decreases items, 0nat,
{
    proof { lemma_sterms_of(items@); }
    let ghost all = sterms_of(items@).skip(from as int);
    let mut out: Vec<Expr> = Vec::new();
    let mut i: usize = from;
    proof { assert(asts_of(out@) =~= Seq::empty()); assert(all.take(0) =~= Seq::empty()); }
    while i < items.len()
        invariant
            from <= i <= items.len(),
            all == sterms_of(items@).skip(from as int),
            sterms_of(items@).len() == items@.len(),
            forall|j: int| 0 <= j < items@.len() ==> #[trigger] sterms_of(items@)[j] == sterm_of(items@[j]),
            parse_terms(all.take(i - from)) == Ok::<Seq<AstTerm>, Seq<char>>(asts_of(out@)),
        decreases items.len() - i,
    {
        proof {
            assert(decreases_to!(items => items@[i as int]));
            assert(all.take(i - from + 1).drop_last() =~= all.take(i - from));
            assert(all.take(i - from + 1).last() == sterm_of(items@[i as int]));
        }
        match parse_expr(&items[i]) {
            Ok(x) => {
                proof { assert(out@.push(x).drop_last() =~= out@); }
                out.push(x);
            },
            Err(e) => {
                proof { lemma_parse_terms_error(all, i - from + 1); }
                return Err(e);
            },
        }
        i = i + 1;
    }
    proof { assert(all.take(items.len() - from) =~= all); }
    Ok(out)
}

proof fn lemma_parse_terms_error(s: Seq<STerm>, k: int)
    requires
        0 <= k <= s.len(),
        parse_terms(s.take(k)) is Err,
    ensures
        parse_terms(s) == parse_terms(s.take(k)),
    decreases s.len() - k,
{
    if k < s.len() {
        assert(s.take(k + 1).drop_last() =~= s.take(k));
        lemma_parse_terms_error(s, k + 1);
    } else {
        assert(s.take(k) =~= s);
    }
}

proof fn lemma_parse_bindings_error(s: Seq<STerm>, k: int)
    requires
        0 <= k <= s.len(),
        parse_bindings(s.take(k)) is Err,
    ensures
        parse_bindings(s) == parse_bindings(s.take(k)),
    decreases s.len() - k,
{
    if k < s.len() {
        assert(s.take(k + 1).drop_last() =~= s.take(k));
        lemma_parse_bindings_error(s, k + 1);
    } else {
        assert(s.take(k) =~= s);
    }
}

/// The bindings of a `let`.
fn parse_let_bindings(bindings: &Vec<SExpr>) -> (r: Result<Vec<(String, Expr)>, CompileError>)
    ensures
        match parse_bindings(sterms_of(bindings@)) {
            Ok(v) => r matches Ok(bs) && ast_bindings_of(bs@) == v,
            Err(m) => r matches Err(e) && e.0@ == m,
        },
    decreases bindings, 0nat,
{
    proof { lemma_sterms_of(bindings@); }
    let ghost all = sterms_of(bindings@);
    let mut parsed: Vec<(String, Expr)> = Vec::new();
    let mut i: usize = 0;
    proof { assert(ast_bindings_of(parsed@) =~= Seq::empty()); assert(all.take(0) =~= Seq::empty()); }
    while i < bindings.len()
        invariant
            i <= bindings.len(),
            all == sterms_of(bindings@),
            all.len() == bindings@.len(),
            forall|j: int| 0 <= j < bindings@.len() ==> #[trigger] all[j] == sterm_of(bindings@[j]),
            parse_bindings(all.take(i as int)) == Ok::<Seq<(Seq<char>, AstTerm)>, Seq<char>>(ast_bindings_of(parsed@)),
        decreases bindings.len() - i,
    {
        proof {
            assert(all.take(i + 1).drop_last() =~= all.take(i as int));
            assert(all.take(i + 1).last() == sterm_of(bindings@[i as int]));
        }
        match &bindings[i] {
            SExpr::List(pair) => {
                proof { lemma_sterms_of(pair@); }
                if pair.len() != 2 {
                    proof { lemma_parse_bindings_error(all, i + 1); }
                    return Err(crate::error("each let binding must be (name expression)"));
                }
                let name = match symbol(&pair[0]) {
                    Ok(n) => n,
                    Err(e) => {
                        proof { lemma_parse_bindings_error(all, i + 1); }
                        return Err(e);
                    },
                };
                proof {
                    assert(decreases_to!(bindings => bindings@[i as int]));
                    assert(decreases_to!(bindings@[i as int] => pair));
                    assert(decreases_to!(pair => pair@[1]));
                }
                let value = match parse_expr(&pair[1]) {
                    Ok(v) => v,
                    Err(e) => {
                        proof { lemma_parse_bindings_error(all, i + 1); }
                        return Err(e);
                    },
                };
                let entry = (name, value);
                proof { assert(parsed@.push(entry).drop_last() =~= parsed@); }
                parsed.push(entry);
            },
            _ => {
                proof { lemma_parse_bindings_error(all, i + 1); }
                return Err(crate::error("each let binding must be (name expression)"));
            },
        }
        i = i + 1;
    }
    proof { assert(all.take(bindings.len() as int) =~= all); }
    Ok(parsed)
}

/// A `(lambda (params...) body)` form.
fn parse_lambda(items: &Vec<SExpr>) -> (r: Result<Expr, CompileError>)
    requires
        head_of(sterms_of(items@)) == Some("lambda"@),
    ensures
        parses_to(r, parse_list(sterms_of(items@))),
    decreases items, 0nat,
{
    proof { lemma_sterms_of(items@); }
    if items.len() != 3 {
        return Err(crate::error("lambda expects parameters and exactly one body expression"));
    }
    match &items[1] {
        SExpr::List(params) => {
            proof { assert(sterms_of(params@).skip(0) =~= sterms_of(params@)); }
            let params = symbols(params, 0)?;
            ensure_distinct(&params, "lambda parameters")?;
            proof { assert(decreases_to!(items => items@[2])); }
            let body = parse_expr(&items[2])?;
            Ok(Expr::Lambda { params, body: Box::new(body) })
        },
        _ => Err(crate::error("lambda parameters must be a list")),
    }
}

/// An `(if condition then else)` form.
fn parse_if(items: &Vec<SExpr>) -> (r: Result<Expr, CompileError>)
    requires
        head_of(sterms_of(items@)) == Some("if"@),
        head_of(sterms_of(items@)) != Some("lambda"@),
    ensures
        parses_to(r, parse_list(sterms_of(items@))),
    decreases items, 0nat,
{
    proof { lemma_sterms_of(items@); }
    if items.len() != 4 {
        return Err(crate::error("if expects condition, then, and else expressions"));
    }
    proof {
        assert(decreases_to!(items => items@[1]));
        assert(decreases_to!(items => items@[2]));
        assert(decreases_to!(items => items@[3]));
    }
    let c = parse_expr(&items[1])?;
    let a = parse_expr(&items[2])?;
    let b = parse_expr(&items[3])?;
    Ok(Expr::If { condition: Box::new(c), then_branch: Box::new(a), else_branch: Box::new(b) })
}

/// A `(let ((name value)...) body)` form.
fn parse_let(items: &Vec<SExpr>) -> (r: Result<Expr, CompileError>)
    requires
        head_of(sterms_of(items@)) == Some("let"@),
        head_of(sterms_of(items@)) != Some("lambda"@),
        head_of(sterms_of(items@)) != Some("if"@),
    ensures
        parses_to(r, parse_list(sterms_of(items@))),
    decreases items, 0nat,
{
    proof { lemma_sterms_of(items@); }
    if items.len() != 3 {
        return Err(crate::error("let expects bindings and exactly one body expression"));
    }
    match &items[1] {
        SExpr::List(bindings) => {
            proof { assert(decreases_to!(items => items@[1])); assert(decreases_to!(items@[1] => bindings)); }
            let parsed = parse_let_bindings(bindings)?;
            let mut names: Vec<String> = Vec::new();
            let mut i: usize = 0;
            proof { lemma_ast_bindings_of(parsed@); }
            while i < parsed.len()
                invariant
                    i <= parsed.len(),
                    ast_bindings_of(parsed@).len() == parsed@.len(),
                    forall|j: int| 0 <= j < parsed@.len() ==> #[trigger] ast_bindings_of(parsed@)[j] == (
                        parsed@[j].0@,
                        ast_of(parsed@[j].1),
                    ),
                    names_of(names@) == ast_bindings_of(parsed@).map_values(|p: (Seq<char>, AstTerm)| p.0).take(
                        i as int,
                    ),
                decreases parsed.len() - i,
            {
                let ghost before = names@;
                names.push(parsed[i].0.clone());
                proof {
                    let ks = ast_bindings_of(parsed@).map_values(|p: (Seq<char>, AstTerm)| p.0);
                    assert(ks[i as int] == parsed@[i as int].0@);
                    assert(ks.take(i + 1) =~= ks.take(i as int).push(ks[i as int]));
                    assert(names_of(names@) =~= names_of(before).push(parsed@[i as int].0@));
                }
                i = i + 1;
            }
            proof {
                assert(ast_bindings_of(parsed@).map_values(|p: (Seq<char>, AstTerm)| p.0).take(parsed.len() as int)
                    =~= ast_bindings_of(parsed@).map_values(|p: (Seq<char>, AstTerm)| p.0));
            }
            ensure_distinct(&names, "let bindings")?;
            proof { assert(decreases_to!(items => items@[2])); }
            let body = parse_expr(&items[2])?;
            Ok(Expr::Let { bindings: parsed, body: Box::new(body) })
        },
        _ => Err(crate::error("let bindings must be a list")),
    }
}

/// A non-empty list: a special form by its head, or an application.
fn parse_list_expr(items: &Vec<SExpr>) -> (r: Result<Expr, CompileError>)
    requires
        items.len() > 0,
    ensures
        parses_to(r, parse_list(sterms_of(items@))),
    decreases items, 1nat,
{
    proof { lemma_sterms_of(items@); }
    if let Some(h) = head_symbol(items) {
        if text_is(h, "lambda") {
            return parse_lambda(items);
        } else if text_is(h, "if") {
            return parse_if(items);
        } else if text_is(h, "let") {
            return parse_let(items);
        } else if text_is(h, "cons") {
            if items.len() != 3 {
                return Err(crate::error("cons expects two arguments"));
            }
            proof { assert(decreases_to!(items => items@[1])); assert(decreases_to!(items => items@[2])); }
            let a = parse_expr(&items[1])?;
            let b = parse_expr(&items[2])?;
            return Ok(Expr::Cons(Box::new(a), Box::new(b)));
        } else if text_is(h, "car") || text_is(h, "cdr") || text_is(h, "null?") {
            if items.len() != 2 {
                let mut message = String::new();
                push_str(&mut message, h.as_str());
                push_str(&mut message, " expects one argument");
                proof { assert(message@ =~= h@ + " expects one argument"@); }
                return Err(CompileError(message));
            }
            proof { assert(decreases_to!(items => items@[1])); }
            let a = Box::new(parse_expr(&items[1])?);
            return Ok(
                if text_is(h, "car") {
                    Expr::Car(a)
                } else if text_is(h, "cdr") {
                    Expr::Cdr(a)
                } else {
                    Expr::Null(a)
                },
            );
        } else if is_forbidden(h) {
            return Err(outside(h));
        }
    }
    proof { assert(decreases_to!(items => items@[0])); }
    let function = parse_expr(&items[0])?;
    let args = parse_exprs(items, 1)?;
    proof { assert(sterms_of(items@).skip(1) =~= sterms_of(items@).drop_first()); }
    Ok(Expr::Apply { function: Box::new(function), args })
}

/// The expression a form denotes.
pub fn parse_expr(form: &SExpr) -> (r: Result<Expr, CompileError>)
    ensures
        parses_to(r, parse_term(form@)),
    decreases form,
{
    match form {
        SExpr::Number(n) => Ok(Expr::Number(*n)),
        SExpr::Bool(b) => Ok(Expr::Bool(*b)),
        SExpr::Symbol(s) => {
            reject_forbidden(s)?;
            Ok(Expr::Var(s.clone()))
        },
        SExpr::List(items) => {
            proof { lemma_sterms_of(items@); }
            if items.len() == 0 {
                Ok(Expr::Nil)
            } else {
                parse_list_expr(items)
            }
        },
    }
}


// ---------------------------------------------------------------------------
// Graph declarations
// ---------------------------------------------------------------------------

/// The mathematical value of a [`GraphDefinition`].
pub struct GraphTerm {
    pub name: Seq<char>,
    pub nodes: usize,
    pub inputs: Seq<usize>,
    pub outputs: Seq<usize>,
    pub edges: Seq<GraphEdge>,
}

impl View for GraphDefinition {
    type V = GraphTerm;

    open spec fn view(&self) -> GraphTerm {
        GraphTerm {
            name: self.name@,
            nodes: self.nodes,
            inputs: self.inputs@,
            outputs: self.outputs@,
            edges: self.edges@,
        }
    }
}

pub open spec fn count_form_error(label: Seq<char>) -> Seq<char> {
    "graph "@ + label + " must be written as ("@ + label + " n)"@
}

pub open spec fn id_list_error(label: Seq<char>) -> Seq<char> {
    "graph "@ + label + " must be a list of node ids"@
}

pub open spec fn id_form_error(label: Seq<char>) -> Seq<char> {
    "graph "@ + label + " must be written as ("@ + label + " (...))"@
}

pub open spec fn nonnegative_error(label: Seq<char>) -> Seq<char> {
    "graph "@ + label + " must be a nonnegative integer"@
}

pub open spec fn integer_error(label: Seq<char>) -> Seq<char> {
    "graph "@ + label + " must be an integer"@
}

/// A node count or id: a number that fits in `usize`.
pub open spec fn graph_usize_of(t: STerm, label: Seq<char>) -> Result<usize, Seq<char>> {
    match t {
        STerm::Number(v) => if 0 <= v <= usize::MAX {
            Ok(v as usize)
        } else {
            Err(nonnegative_error(label))
        },
        _ => Err(nonnegative_error(label)),
    }
}

pub open spec fn graph_number_of(t: STerm, label: Seq<char>) -> Result<i64, Seq<char>> {
    match t {
        STerm::Number(v) => Ok(v),
        _ => Err(integer_error(label)),
    }
}

/// `(label n)`.
pub open spec fn graph_count_of(t: STerm, label: Seq<char>) -> Result<usize, Seq<char>> {
    match t {
        STerm::List(items) => if items.len() != 2 || items[0] != STerm::Symbol(label) {
            Err(count_form_error(label))
        } else {
            graph_usize_of(items[1], label)
        },
        _ => Err(count_form_error(label)),
    }
}

pub open spec fn graph_usizes_of(s: Seq<STerm>, label: Seq<char>) -> Result<Seq<usize>, Seq<char>>
    decreases s.len(),
{
    if s.len() == 0 {
        Ok(Seq::empty())
    } else {
        match graph_usizes_of(s.drop_last(), label) {
            Err(m) => Err(m),
            Ok(front) => match graph_usize_of(s.last(), label) {
                Err(m) => Err(m),
                Ok(x) => Ok(front.push(x)),
            },
        }
    }
}

/// `(label (id ...))`.
pub open spec fn graph_ids_of(t: STerm, label: Seq<char>) -> Result<Seq<usize>, Seq<char>> {
    match t {
        STerm::List(items) => if items.len() != 2 || items[0] != STerm::Symbol(label) {
            Err(id_form_error(label))
        } else {
            match items[1] {
                STerm::List(ids) => graph_usizes_of(ids, label),
                _ => Err(id_list_error(label)),
            }
        },
        _ => Err(id_list_error(label)),
    }
}

pub open spec fn edge_shape_error() -> Seq<char> {
    "each graph edge must be (source target weight)"@
}

pub open spec fn edges_form_error() -> Seq<char> {
    "graph edges must be written as (edges (...))"@
}

/// `(source target weight)`.
pub open spec fn graph_edge_of(t: STerm) -> Result<GraphEdge, Seq<char>> {
    match t {
        STerm::List(e) => if e.len() != 3 {
            Err(edge_shape_error())
        } else {
            match graph_usize_of(e[0], "edge source"@) {
                Err(m) => Err(m),
                Ok(src) => match graph_usize_of(e[1], "edge target"@) {
                    Err(m) => Err(m),
                    Ok(dst) => match graph_number_of(e[2], "edge weight"@) {
                        Err(m) => Err(m),
                        Ok(weight) => Ok(GraphEdge { src, dst, weight }),
                    },
                },
            }
        },
        _ => Err(edge_shape_error()),
    }
}

pub open spec fn graph_edge_list_of(s: Seq<STerm>) -> Result<Seq<GraphEdge>, Seq<char>>
    decreases s.len(),
{
    if s.len() == 0 {
        Ok(Seq::empty())
    } else {
        match graph_edge_list_of(s.drop_last()) {
            Err(m) => Err(m),
            Ok(front) => match graph_edge_of(s.last()) {
                Err(m) => Err(m),
                Ok(x) => Ok(front.push(x)),
            },
        }
    }
}

/// The edge forms of `(edges ...)`: one nested list of edges, or the edges
/// written directly.
pub open spec fn edge_forms(items: Seq<STerm>) -> Seq<STerm> {
    if items.len() > 1 && (items[1] matches STerm::List(es) && (es.len() == 0 || es[0] is List)) {
        items[1]->List_0
    } else {
        items.drop_first()
    }
}

/// `(edges (src dst weight) ...)`.
pub open spec fn graph_edges_of(t: STerm) -> Result<Seq<GraphEdge>, Seq<char>> {
    match t {
        STerm::List(items) => if items.len() == 0 || items[0] != STerm::Symbol("edges"@) {
            Err(edges_form_error())
        } else {
            graph_edge_list_of(edge_forms(items))
        },
        _ => Err(edges_form_error()),
    }
}

/// The first value that repeats an earlier one.
pub open spec fn first_repeat_usize(s: Seq<usize>) -> Option<usize>
    decreases s.len(),
{
    if s.len() == 0 {
        None
    } else {
        match first_repeat_usize(s.drop_last()) {
            Some(x) => Some(x),
            None => if s.drop_last().contains(s.last()) {
                Some(s.last())
            } else {
                None
            },
        }
    }
}

pub open spec fn node_range_error(node: usize, nodes: usize) -> Seq<char> {
    "graph node "@ + decimal(node as nat) + " is outside the declared node range 0.."@ + decimal(nodes as nat)
}

pub open spec fn edge_range_error(e: GraphEdge, nodes: usize) -> Seq<char> {
    "graph edge ("@ + decimal(e.src as nat) + ", "@ + decimal(e.dst as nat) + ") is outside the declared node range 0.."@
        + decimal(nodes as nat)
}

pub open spec fn zero_weight_error() -> Seq<char> {
    "graph edges must have nonzero weights; omit zero edges"@
}

pub open spec fn duplicate_edge_error(e: GraphEdge) -> Seq<char> {
    "duplicate graph edge ("@ + decimal(e.src as nat) + ", "@ + decimal(e.dst as nat) + ")"@
}

/// The first node at or past `nodes`.
pub open spec fn first_outside(s: Seq<usize>, nodes: usize) -> Option<usize>
    decreases s.len(),
{
    if s.len() == 0 {
        None
    } else {
        match first_outside(s.drop_last(), nodes) {
            Some(x) => Some(x),
            None => if s.last() >= nodes {
                Some(s.last())
            } else {
                None
            },
        }
    }
}

/// The problem with the first edge that has one: an end outside the node
/// range, or a zero weight.
pub open spec fn first_bad_edge(s: Seq<GraphEdge>, nodes: usize) -> Option<Seq<char>>
    decreases s.len(),
{
    if s.len() == 0 {
        None
    } else {
        match first_bad_edge(s.drop_last(), nodes) {
            Some(x) => Some(x),
            None => if s.last().src >= nodes || s.last().dst >= nodes {
                Some(edge_range_error(s.last(), nodes))
            } else if s.last().weight == 0 {
                Some(zero_weight_error())
            } else {
                None
            },
        }
    }
}

/// The first edge that repeats the ends of an earlier one.
pub open spec fn first_duplicate_edge(s: Seq<GraphEdge>) -> Option<GraphEdge>
    decreases s.len(),
{
    if s.len() == 0 {
        None
    } else {
        match first_duplicate_edge(s.drop_last()) {
            Some(x) => Some(x),
            None => if exists|j: int| 0 <= j < s.len() - 1 && #[trigger] s[j].src == s.last().src && s[j].dst == s.last().dst {
                Some(s.last())
            } else {
                None
            },
        }
    }
}

/// A `(define-graph name (nodes n) (inputs (...)) (outputs (...)) (edges ...))`
/// form, checked.
pub open spec fn parse_graph_term(items: Seq<STerm>) -> Result<GraphTerm, Seq<char>> {
    if items.len() != 6 {
        Err("define-graph expects a name, nodes, inputs, outputs, and edges"@)
    } else {
        match items[1] {
            STerm::Symbol(raw) => match valid_name_of(raw) {
                Err(m) => Err(m),
                Ok(name) => match graph_count_of(items[2], "nodes"@) {
                    Err(m) => Err(m),
                    Ok(nodes) => match graph_ids_of(items[3], "inputs"@) {
                        Err(m) => Err(m),
                        Ok(inputs) => match graph_ids_of(items[4], "outputs"@) {
                            Err(m) => Err(m),
                            Ok(outputs) => match graph_edges_of(items[5]) {
                                Err(m) => Err(m),
                                Ok(edges) => graph_checked(GraphTerm { name, nodes, inputs, outputs, edges }),
                            },
                        },
                    },
                },
            },
            _ => Err("define-graph needs an identifier"@),
        }
    }
}

/// A parsed graph once its structure is checked.
pub open spec fn graph_checked(g: GraphTerm) -> Result<GraphTerm, Seq<char>> {
    match first_repeat_usize(g.inputs) {
        Some(v) => Err(duplicate_value_error("graph inputs"@, v)),
        None => match first_repeat_usize(g.outputs) {
            Some(v) => Err(duplicate_value_error("graph outputs"@, v)),
            None => match first_outside(g.inputs + g.outputs, g.nodes) {
                Some(v) => Err(node_range_error(v, g.nodes)),
                None => match first_bad_edge(g.edges, g.nodes) {
                    Some(m) => Err(m),
                    None => match first_duplicate_edge(g.edges) {
                        Some(e) => Err(duplicate_edge_error(e)),
                        None => Ok(g),
                    },
                },
            },
        },
    }
}


pub open spec fn duplicate_value_error(description: Seq<char>, v: usize) -> Seq<char> {
    "duplicate "@ + description + ": `"@ + decimal(v as nat) + "`"@
}

/// `"graph {label}{tail}"`.
fn graph_message(label: &str, tail: &str) -> (e: CompileError)
    ensures
        e.0@ == "graph "@ + label@ + tail@,
{
    let mut message = String::new();
    push_str(&mut message, "graph ");
    push_str(&mut message, label);
    push_str(&mut message, tail);
    proof { assert(message@ =~= "graph "@ + label@ + tail@); }
    CompileError(message)
}

/// A node count or id.
fn graph_usize(form: &SExpr, label: &str) -> (r: Result<usize, CompileError>)
    ensures
        match graph_usize_of(form@, label@) {
            Ok(v) => r == Ok::<usize, CompileError>(v),
            Err(m) => r matches Err(e) && e.0@ == m,
        },
{
    match form {
        SExpr::Number(v) => {
            let v = *v;
            if v < 0 || (v as u64 as u128) > (usize::MAX as u128) {
                let e = graph_message(label, " must be a nonnegative integer");
                proof { assert(e.0@ =~= nonnegative_error(label@)); }
                Err(e)
            } else {
                Ok(v as u64 as usize)
            }
        },
        _ => {
            let e = graph_message(label, " must be a nonnegative integer");
            proof { assert(e.0@ =~= nonnegative_error(label@)); }
            Err(e)
        },
    }
}

/// An edge weight.
fn graph_number(form: &SExpr, label: &str) -> (r: Result<i64, CompileError>)
    ensures
        match graph_number_of(form@, label@) {
            Ok(v) => r == Ok::<i64, CompileError>(v),
            Err(m) => r matches Err(e) && e.0@ == m,
        },
{
    match form {
        SExpr::Number(v) => Ok(*v),
        _ => {
            let e = graph_message(label, " must be an integer");
            proof { assert(e.0@ =~= integer_error(label@)); }
            Err(e)
        },
    }
}

/// Whether `form` is the symbol `label`.
fn is_symbol(form: &SExpr, label: &str) -> (r: bool)
    ensures
        r == (form@ == STerm::Symbol(label@)),
{
    match form {
        SExpr::Symbol(s) => text_is(s, label),
        _ => false,
    }
}

/// `(label n)`.
fn parse_graph_count(form: &SExpr, label: &str) -> (r: Result<usize, CompileError>)
    ensures
        match graph_count_of(form@, label@) {
            Ok(v) => r == Ok::<usize, CompileError>(v),
            Err(m) => r matches Err(e) && e.0@ == m,
        },
{
    let failure = |label: &str| -> (e: CompileError)
        ensures
            e.0@ == count_form_error(label@),
        {
            let mut message = String::new();
            push_str(&mut message, "graph ");
            push_str(&mut message, label);
            push_str(&mut message, " must be written as (");
            push_str(&mut message, label);
            push_str(&mut message, " n)");
            proof { assert(message@ =~= count_form_error(label@)); }
            CompileError(message)
        };
    match form {
        SExpr::List(items) => {
            proof { lemma_sterms_of(items@); }
            if items.len() != 2 || !is_symbol(&items[0], label) {
                Err(failure(label))
            } else {
                graph_usize(&items[1], label)
            }
        },
        _ => Err(failure(label)),
    }
}


proof fn lemma_usizes_error(s: Seq<STerm>, label: Seq<char>, k: int)
    requires
        0 <= k <= s.len(),
        graph_usizes_of(s.take(k), label) is Err,
    ensures
        graph_usizes_of(s, label) == graph_usizes_of(s.take(k), label),
    decreases s.len() - k,
{
    if k < s.len() {
        assert(s.take(k + 1).drop_last() =~= s.take(k));
        lemma_usizes_error(s, label, k + 1);
    } else {
        assert(s.take(k) =~= s);
    }
}

proof fn lemma_edge_list_error(s: Seq<STerm>, k: int)
    requires
        0 <= k <= s.len(),
        graph_edge_list_of(s.take(k)) is Err,
    ensures
        graph_edge_list_of(s) == graph_edge_list_of(s.take(k)),
    decreases s.len() - k,
{
    if k < s.len() {
        assert(s.take(k + 1).drop_last() =~= s.take(k));
        lemma_edge_list_error(s, k + 1);
    } else {
        assert(s.take(k) =~= s);
    }
}

/// `(label (id ...))`.
#[verifier::loop_isolation(false)]
fn parse_graph_id_list(form: &SExpr, label: &str) -> (r: Result<Vec<usize>, CompileError>)
    ensures
        match graph_ids_of(form@, label@) {
            Ok(v) => r matches Ok(ids) && ids@ == v,
            Err(m) => r matches Err(e) && e.0@ == m,
        },
{
    match form {
        SExpr::List(items) => {
            proof { lemma_sterms_of(items@); }
            if items.len() != 2 || !is_symbol(&items[0], label) {
                let mut message = String::new();
                push_str(&mut message, "graph ");
                push_str(&mut message, label);
                push_str(&mut message, " must be written as (");
                push_str(&mut message, label);
                push_str(&mut message, " (...))");
                proof { assert(message@ =~= id_form_error(label@)); }
                return Err(CompileError(message));
            }
            match &items[1] {
                SExpr::List(ids) => {
                    proof { lemma_sterms_of(ids@); }
                    let ghost all = sterms_of(ids@);
                    let mut out: Vec<usize> = Vec::new();
                    let mut i: usize = 0;
                    proof { assert(all.take(0) =~= Seq::empty()); }
                    while i < ids.len()
                        invariant
                            i <= ids.len(),
                            all == sterms_of(ids@),
                            all.len() == ids@.len(),
                            forall|j: int| 0 <= j < ids@.len() ==> #[trigger] all[j] == sterm_of(ids@[j]),
                            graph_usizes_of(all.take(i as int), label@) == Ok::<Seq<usize>, Seq<char>>(out@),
                        decreases ids.len() - i,
                    {
                        proof {
                            assert(all.take(i + 1).drop_last() =~= all.take(i as int));
                            assert(all.take(i + 1).last() == sterm_of(ids@[i as int]));
                        }
                        match graph_usize(&ids[i], label) {
                            Ok(v) => {
                                out.push(v);
                            },
                            Err(e) => {
                                proof { lemma_usizes_error(all, label@, i + 1); }
                                return Err(e);
                            },
                        }
                        i = i + 1;
                    }
                    proof { assert(all.take(ids.len() as int) =~= all); }
                    Ok(out)
                },
                _ => {
                    let e = graph_message(label, " must be a list of node ids");
                    proof { assert(e.0@ =~= id_list_error(label@)); }
                    Err(e)
                },
            }
        },
        _ => {
            let e = graph_message(label, " must be a list of node ids");
            proof { assert(e.0@ =~= id_list_error(label@)); }
            Err(e)
        },
    }
}

/// `(source target weight)`.
fn parse_graph_edge(form: &SExpr) -> (r: Result<GraphEdge, CompileError>)
    ensures
        match graph_edge_of(form@) {
            Ok(v) => r == Ok::<GraphEdge, CompileError>(v),
            Err(m) => r matches Err(e) && e.0@ == m,
        },
{
    match form {
        SExpr::List(edge) => {
            proof { lemma_sterms_of(edge@); }
            if edge.len() != 3 {
                return Err(crate::error("each graph edge must be (source target weight)"));
            }
            let src = graph_usize(&edge[0], "edge source")?;
            let dst = graph_usize(&edge[1], "edge target")?;
            let weight = graph_number(&edge[2], "edge weight")?;
            Ok(GraphEdge { src, dst, weight })
        },
        _ => Err(crate::error("each graph edge must be (source target weight)")),
    }
}

/// The edges written as `forms[from..]`.
fn parse_edge_list(forms: &Vec<SExpr>, from: usize) -> (r: Result<Vec<GraphEdge>, CompileError>)
    requires
        from <= forms.len(),
    ensures
        match graph_edge_list_of(sterms_of(forms@).skip(from as int)) {
            Ok(v) => r matches Ok(edges) && edges@ == v,
            Err(m) => r matches Err(e) && e.0@ == m,
        },
{
    proof { lemma_sterms_of(forms@); }
    let ghost all = sterms_of(forms@).skip(from as int);
    let mut out: Vec<GraphEdge> = Vec::new();
    let mut i: usize = from;
    proof { assert(all.take(0) =~= Seq::empty()); }
    while i < forms.len()
        invariant
            from <= i <= forms.len(),
            all == sterms_of(forms@).skip(from as int),
            sterms_of(forms@).len() == forms@.len(),
            forall|j: int| 0 <= j < forms@.len() ==> #[trigger] sterms_of(forms@)[j] == sterm_of(forms@[j]),
            graph_edge_list_of(all.take(i - from)) == Ok::<Seq<GraphEdge>, Seq<char>>(out@),
        decreases forms.len() - i,
    {
        proof {
            assert(all.take(i - from + 1).drop_last() =~= all.take(i - from));
            assert(all.take(i - from + 1).last() == sterm_of(forms@[i as int]));
        }
        match parse_graph_edge(&forms[i]) {
            Ok(e) => {
                out.push(e);
            },
            Err(e) => {
                proof { lemma_edge_list_error(all, i - from + 1); }
                return Err(e);
            },
        }
        i = i + 1;
    }
    proof { assert(all.take(forms.len() - from) =~= all); }
    Ok(out)
}

/// `(edges ...)`: one nested list of edges, or the edges written directly.
fn parse_graph_edges(form: &SExpr) -> (r: Result<Vec<GraphEdge>, CompileError>)
    ensures
        match graph_edges_of(form@) {
            Ok(v) => r matches Ok(edges) && edges@ == v,
            Err(m) => r matches Err(e) && e.0@ == m,
        },
{
    let items = match form {
        SExpr::List(items) => items,
        _ => {
            return Err(crate::error("graph edges must be written as (edges (...))"));
        },
    };
    proof { lemma_sterms_of(items@); }
    if items.len() == 0 || !is_symbol(&items[0], "edges") {
        return Err(crate::error("graph edges must be written as (edges (...))"));
    }
    if items.len() > 1 {
        match &items[1] {
            SExpr::List(edges) => {
                proof { lemma_sterms_of(edges@); }
                if edges.len() == 0 || matches!(&edges[0], SExpr::List(_)) {
                    proof { assert(sterms_of(edges@).skip(0) =~= edge_forms(sterms_of(items@))); }
                    return parse_edge_list(edges, 0);
                }
            },
            _ => {},
        }
    }
    proof { assert(sterms_of(items@).skip(1) =~= edge_forms(sterms_of(items@))); }
    parse_edge_list(items, 1)
}

proof fn lemma_first_repeat_usize_prefix(s: Seq<usize>, k: int)
    requires
        0 <= k <= s.len(),
        first_repeat_usize(s.take(k)) is Some,
    ensures
        first_repeat_usize(s) == first_repeat_usize(s.take(k)),
    decreases s.len() - k,
{
    if k < s.len() {
        assert(s.take(k + 1).drop_last() =~= s.take(k));
        lemma_first_repeat_usize_prefix(s, k + 1);
    } else {
        assert(s.take(k) =~= s);
    }
}

/// Refuse a repeated value among `values`.
fn ensure_distinct_usize(values: &Vec<usize>, description: &str) -> (r: Result<(), CompileError>)
    ensures
        match first_repeat_usize(values@) {
            Some(v) => r matches Err(e) && e.0@ == duplicate_value_error(description@, v),
            None => r is Ok,
        },
{
    let mut k: usize = 0;
    while k < values.len()
        invariant
            k <= values.len(),
            first_repeat_usize(values@.take(k as int)) is None,
        decreases values.len() - k,
    {
        proof { assert(values@.take(k + 1).drop_last() =~= values@.take(k as int)); }
        let mut seen = false;
        let mut j: usize = 0;
        while j < k
            invariant
                j <= k < values.len(),
                seen == exists|i: int| 0 <= i < j && values@[i] == values@[k as int],
            decreases k - j,
        {
            if values[j] == values[k] {
                seen = true;
            }
            j = j + 1;
        }
        if seen {
            let mut message = String::new();
            push_str(&mut message, "duplicate ");
            push_str(&mut message, description);
            push_str(&mut message, ": `");
            push_decimal(&mut message, values[k] as u64);
            push_str(&mut message, "`");
            proof {
                let i = choose|i: int| 0 <= i < k && values@[i] == values@[k as int];
                assert(values@.take(k as int)[i] == values@[k as int]);
                assert(values@.take(k + 1).last() == values@[k as int]);
                lemma_first_repeat_usize_prefix(values@, k + 1);
                assert(message@ =~= duplicate_value_error(description@, values@[k as int]));
            }
            return Err(CompileError(message));
        }
        proof {
            if values@.take(k as int).contains(values@[k as int]) {
                let i = choose|i: int| 0 <= i < k && values@.take(k as int)[i] == values@[k as int];
                assert(values@[i] == values@[k as int]);
            }
        }
        k = k + 1;
    }
    proof { assert(values@.take(values.len() as int) =~= values@); }
    Ok(())
}


proof fn lemma_first_outside_prefix(s: Seq<usize>, nodes: usize, k: int)
    requires
        0 <= k <= s.len(),
        first_outside(s.take(k), nodes) is Some,
    ensures
        first_outside(s, nodes) == first_outside(s.take(k), nodes),
    decreases s.len() - k,
{
    if k < s.len() {
        assert(s.take(k + 1).drop_last() =~= s.take(k));
        lemma_first_outside_prefix(s, nodes, k + 1);
    } else {
        assert(s.take(k) =~= s);
    }
}

proof fn lemma_first_bad_edge_prefix(s: Seq<GraphEdge>, nodes: usize, k: int)
    requires
        0 <= k <= s.len(),
        first_bad_edge(s.take(k), nodes) is Some,
    ensures
        first_bad_edge(s, nodes) == first_bad_edge(s.take(k), nodes),
    decreases s.len() - k,
{
    if k < s.len() {
        assert(s.take(k + 1).drop_last() =~= s.take(k));
        lemma_first_bad_edge_prefix(s, nodes, k + 1);
    } else {
        assert(s.take(k) =~= s);
    }
}

proof fn lemma_first_duplicate_edge_prefix(s: Seq<GraphEdge>, k: int)
    requires
        0 <= k <= s.len(),
        first_duplicate_edge(s.take(k)) is Some,
    ensures
        first_duplicate_edge(s) == first_duplicate_edge(s.take(k)),
    decreases s.len() - k,
{
    if k < s.len() {
        assert(s.take(k + 1).drop_last() =~= s.take(k));
        lemma_first_duplicate_edge_prefix(s, k + 1);
    } else {
        assert(s.take(k) =~= s);
    }
}

/// Check a parsed graph's structure: distinct inputs and outputs, every
/// node in range, nonzero weights, and no edge given twice.
#[verifier::loop_isolation(false)]
fn check_graph(graph: GraphDefinition) -> (r: Result<GraphDefinition, CompileError>)
    ensures
        match graph_checked(graph@) {
            Ok(t) => r matches Ok(g) && g@ == t && g.in_range(),
            Err(m) => r matches Err(e) && e.0@ == m,
        },
{
    ensure_distinct_usize(&graph.inputs, "graph inputs")?;
    ensure_distinct_usize(&graph.outputs, "graph outputs")?;
    let nodes = graph.nodes;
    let ghost ends = graph.inputs@ + graph.outputs@;
    let mut k: usize = 0;
    while k < graph.inputs.len()
        invariant
            ends == graph.inputs@ + graph.outputs@,
            nodes == graph.nodes,
            k <= graph.inputs.len(),
            first_outside(ends.take(k as int), nodes) is None,
            forall|j: int| 0 <= j < k ==> graph.inputs@[j] < nodes,
        decreases graph.inputs.len() - k,
    {
        proof {
            assert(ends.take(k + 1).drop_last() =~= ends.take(k as int));
            assert(ends.take(k + 1).last() == graph.inputs@[k as int]);
        }
        let node = graph.inputs[k];
        if node >= nodes {
            let mut message = String::new();
            push_str(&mut message, "graph node ");
            push_decimal(&mut message, node as u64);
            push_str(&mut message, " is outside the declared node range 0..");
            push_decimal(&mut message, nodes as u64);
            proof {
                lemma_first_outside_prefix(ends, nodes, k + 1);
                assert(message@ =~= node_range_error(node, nodes));
            }
            return Err(CompileError(message));
        }
        k = k + 1;
    }
    let mut k: usize = 0;
    while k < graph.outputs.len()
        invariant
            ends == graph.inputs@ + graph.outputs@,
            nodes == graph.nodes,
            k <= graph.outputs.len(),
            first_outside(ends.take(graph.inputs.len() + k), nodes) is None,
            forall|j: int| 0 <= j < k ==> graph.outputs@[j] < nodes,
        decreases graph.outputs.len() - k,
    {
        let ghost at = graph.inputs.len() + k;
        proof {
            assert(ends.take(at + 1).drop_last() =~= ends.take(at));
            assert(ends.take(at + 1).last() == graph.outputs@[k as int]);
        }
        let node = graph.outputs[k];
        if node >= nodes {
            let mut message = String::new();
            push_str(&mut message, "graph node ");
            push_decimal(&mut message, node as u64);
            push_str(&mut message, " is outside the declared node range 0..");
            push_decimal(&mut message, nodes as u64);
            proof {
                lemma_first_outside_prefix(ends, nodes, at + 1);
                assert(message@ =~= node_range_error(node, nodes));
            }
            return Err(CompileError(message));
        }
        k = k + 1;
    }
    proof { assert(ends.take(ends.len() as int) =~= ends); }
    let mut e: usize = 0;
    while e < graph.edges.len()
        invariant
            e <= graph.edges.len(),
            nodes == graph.nodes,
            first_bad_edge(graph.edges@.take(e as int), nodes) is None,
            forall|j: int| 0 <= j < e ==> graph.edges@[j].src < nodes && graph.edges@[j].dst < nodes,
        decreases graph.edges.len() - e,
    {
        proof {
            assert(graph.edges@.take(e + 1).drop_last() =~= graph.edges@.take(e as int));
            assert(graph.edges@.take(e + 1).last() == graph.edges@[e as int]);
        }
        let edge = graph.edges[e];
        if edge.src >= nodes || edge.dst >= nodes {
            let mut message = String::new();
            push_str(&mut message, "graph edge (");
            push_decimal(&mut message, edge.src as u64);
            push_str(&mut message, ", ");
            push_decimal(&mut message, edge.dst as u64);
            push_str(&mut message, ") is outside the declared node range 0..");
            push_decimal(&mut message, nodes as u64);
            proof {
                lemma_first_bad_edge_prefix(graph.edges@, nodes, e + 1);
                assert(message@ =~= edge_range_error(edge, nodes));
            }
            return Err(CompileError(message));
        }
        if edge.weight == 0 {
            proof { lemma_first_bad_edge_prefix(graph.edges@, nodes, e + 1); }
            return Err(crate::error("graph edges must have nonzero weights; omit zero edges"));
        }
        e = e + 1;
    }
    proof { assert(graph.edges@.take(graph.edges.len() as int) =~= graph.edges@); }
    let mut i: usize = 0;
    while i < graph.edges.len()
        invariant
            i <= graph.edges.len(),
            first_duplicate_edge(graph.edges@.take(i as int)) is None,
        decreases graph.edges.len() - i,
    {
        let ghost s = graph.edges@.take(i + 1);
        proof {
            assert(s.drop_last() =~= graph.edges@.take(i as int));
            assert(s.last() == graph.edges@[i as int]);
        }
        let edge = graph.edges[i];
        let mut j: usize = 0;
        let mut repeated = false;
        while j < i
            invariant
                j <= i < graph.edges.len(),
                edge == graph.edges@[i as int],
                repeated == exists|p: int| 0 <= p < j && #[trigger] graph.edges@[p].src == edge.src && graph.edges@[p].dst
                    == edge.dst,
            decreases i - j,
        {
            let prior = graph.edges[j];
            if prior.src == edge.src && prior.dst == edge.dst {
                repeated = true;
            }
            j = j + 1;
        }
        if repeated {
            let mut message = String::new();
            push_str(&mut message, "duplicate graph edge (");
            push_decimal(&mut message, edge.src as u64);
            push_str(&mut message, ", ");
            push_decimal(&mut message, edge.dst as u64);
            push_str(&mut message, ")");
            proof {
                let p = choose|p: int| 0 <= p < i && #[trigger] graph.edges@[p].src == edge.src && graph.edges@[p].dst == edge.dst;
                assert(s[p] == graph.edges@[p]);
                assert(first_duplicate_edge(s) == Some(edge));
                lemma_first_duplicate_edge_prefix(graph.edges@, i + 1);
                assert(message@ =~= duplicate_edge_error(edge));
            }
            return Err(CompileError(message));
        }
        proof {
            assert(!(exists|p: int| 0 <= p < s.len() - 1 && #[trigger] s[p].src == s.last().src && s[p].dst == s.last().dst)) by {
                if exists|p: int| 0 <= p < s.len() - 1 && #[trigger] s[p].src == s.last().src && s[p].dst == s.last().dst {
                    let p = choose|p: int| 0 <= p < s.len() - 1 && #[trigger] s[p].src == s.last().src && s[p].dst == s.last().dst;
                    assert(graph.edges@[p] == s[p]);
                }
            }
        }
        i = i + 1;
    }
    proof { assert(graph.edges@.take(graph.edges.len() as int) =~= graph.edges@); }
    Ok(graph)
}

/// A `(define-graph ...)` form.
fn parse_graph_define(form: &SExpr) -> (r: Result<GraphDefinition, CompileError>)
    requires
        form@ is List,
    ensures
        match parse_graph_term(form@->List_0) {
            Ok(t) => r matches Ok(g) && g@ == t && g.in_range(),
            Err(m) => r matches Err(e) && e.0@ == m,
        },
{
    let items = match form {
        SExpr::List(items) => items,
        _ => {
            return Err(crate::error(""));
        },
    };
    proof { lemma_sterms_of(items@); }
    if items.len() != 6 {
        return Err(crate::error("define-graph expects a name, nodes, inputs, outputs, and edges"));
    }
    let name = match &items[1] {
        SExpr::Symbol(name) => valid_name(name)?,
        _ => {
            return Err(crate::error("define-graph needs an identifier"));
        },
    };
    let nodes = parse_graph_count(&items[2], "nodes")?;
    let inputs = parse_graph_id_list(&items[3], "inputs")?;
    let outputs = parse_graph_id_list(&items[4], "outputs")?;
    let edges = parse_graph_edges(&items[5])?;
    check_graph(GraphDefinition { name, nodes, inputs, outputs, edges })
}


// ---------------------------------------------------------------------------
// Definitions and programs
// ---------------------------------------------------------------------------

/// A `(define name value)` or `(define (name params...) body)` form.
pub open spec fn parse_define_term(items: Seq<STerm>) -> Result<AstDef, Seq<char>> {
    if items.len() != 3 {
        Err("define expects a name and exactly one expression"@)
    } else {
        match items[1] {
            STerm::Symbol(raw) => match valid_name_of(raw) {
                Err(m) => Err(m),
                Ok(name) => match parse_term(items[2]) {
                    Err(m) => Err(m),
                    Ok(value) => Ok(AstDef { name, value }),
                },
            },
            STerm::List(signature) => if signature.len() == 0 || !(signature[0] is Symbol) {
                Err("function define needs a function name"@)
            } else {
                match symbols_of(signature.drop_first()) {
                    Err(m) => Err(m),
                    Ok(params) => match distinct_error(params, "lambda parameters"@) {
                        Some(m) => Err(m),
                        None => match valid_name_of(signature[0]->Symbol_0) {
                            Err(m) => Err(m),
                            Ok(name) => match parse_term(items[2]) {
                                Err(m) => Err(m),
                                Ok(body) => Ok(AstDef { name, value: AstTerm::Lambda { params, body: Box::new(body) } }),
                            },
                        },
                    },
                }
            },
            _ => Err("define needs an identifier or function signature"@),
        }
    }
}

/// A form that starts with `keyword`.
pub open spec fn starts_with(t: STerm, keyword: Seq<char>) -> bool {
    t matches STerm::List(items) && head_of(items) == Some(keyword)
}

/// The mathematical value of a [`Program`].
pub struct AstProgram {
    pub definitions: Seq<AstDef>,
    pub graphs: Seq<GraphTerm>,
    pub body: Option<AstTerm>,
}

impl View for Program {
    type V = AstProgram;

    open spec fn view(&self) -> AstProgram {
        AstProgram {
            definitions: ast_defs_of(self.definitions@),
            graphs: self.graphs@.map_values(|g: GraphDefinition| g@),
            body: match self.body {
                Some(b) => Some(b@),
                None => None,
            },
        }
    }
}

/// The program the top-level forms make: definitions and graphs, then at
/// most one final expression, which nothing may follow.
pub open spec fn parse_program_terms(forms: Seq<STerm>) -> Result<AstProgram, Seq<char>>
    decreases forms.len(),
{
    if forms.len() == 0 {
        Ok(AstProgram { definitions: Seq::empty(), graphs: Seq::empty(), body: None })
    } else {
        match parse_program_terms(forms.drop_last()) {
            Err(m) => Err(m),
            Ok(p) => {
                let f = forms.last();
                if starts_with(f, "define-graph"@) {
                    if p.body is Some {
                        Err("a top-level definition cannot follow the program expression"@)
                    } else {
                        match parse_graph_term(f->List_0) {
                            Err(m) => Err(m),
                            Ok(g) => Ok(AstProgram { graphs: p.graphs.push(g), ..p }),
                        }
                    }
                } else if starts_with(f, "define"@) {
                    if p.body is Some {
                        Err("a top-level define cannot follow the program expression"@)
                    } else {
                        match parse_define_term(f->List_0) {
                            Err(m) => Err(m),
                            Ok(d) => Ok(AstProgram { definitions: p.definitions.push(d), ..p }),
                        }
                    }
                } else {
                    match parse_term(f) {
                        Err(m) => Err(m),
                        Ok(e) => if p.body is Some {
                            Err("only one final top-level expression is supported"@)
                        } else {
                            Ok(AstProgram { body: Some(e), ..p })
                        },
                    }
                }
            },
        }
    }
}

/// Whether `form` starts with `keyword`.
fn form_starts_with(form: &SExpr, keyword: &str) -> (r: bool)
    ensures
        r == starts_with(form@, keyword@),
{
    match form {
        SExpr::List(items) => match head_symbol(items) {
            Some(h) => text_is(h, keyword),
            None => false,
        },
        _ => false,
    }
}

/// Whether `form` is a `define`.
pub fn is_define(form: &SExpr) -> (r: bool)
    ensures
        r == starts_with(form@, "define"@),
{
    form_starts_with(form, "define")
}

/// Whether `form` is a `define-graph`.
pub fn is_graph_define(form: &SExpr) -> (r: bool)
    ensures
        r == starts_with(form@, "define-graph"@),
{
    form_starts_with(form, "define-graph")
}

/// A `define` form.
fn parse_define(form: &SExpr) -> (r: Result<Definition, CompileError>)
    requires
        form@ is List,
    ensures
        match parse_define_term(form@->List_0) {
            Ok(d) => r matches Ok(x) && x@ == d,
            Err(m) => r matches Err(e) && e.0@ == m,
        },
{
    let items = match form {
        SExpr::List(items) => items,
        _ => {
            return Err(crate::error(""));
        },
    };
    proof { lemma_sterms_of(items@); }
    if items.len() != 3 {
        return Err(crate::error("define expects a name and exactly one expression"));
    }
    match &items[1] {
        SExpr::Symbol(name) => {
            let name = valid_name(name)?;
            let value = parse_expr(&items[2])?;
            Ok(Definition { name, value })
        },
        SExpr::List(signature) => {
            proof { lemma_sterms_of(signature@); }
            if signature.len() == 0 {
                return Err(crate::error("function define needs a function name"));
            }
            match &signature[0] {
                SExpr::Symbol(name) => {
                    proof { assert(sterms_of(signature@).skip(1) =~= sterms_of(signature@).drop_first()); }
                    let params = symbols(signature, 1)?;
                    ensure_distinct(&params, "lambda parameters")?;
                    let name = valid_name(name)?;
                    let body = parse_expr(&items[2])?;
                    Ok(Definition { name, value: Expr::Lambda { params, body: Box::new(body) } })
                },
                _ => Err(crate::error("function define needs a function name")),
            }
        },
        _ => Err(crate::error("define needs an identifier or function signature")),
    }
}

proof fn lemma_program_error(s: Seq<STerm>, k: int)
    requires
        0 <= k <= s.len(),
        parse_program_terms(s.take(k)) is Err,
    ensures
        parse_program_terms(s) == parse_program_terms(s.take(k)),
    decreases s.len() - k,
{
    if k < s.len() {
        assert(s.take(k + 1).drop_last() =~= s.take(k));
        lemma_program_error(s, k + 1);
    } else {
        assert(s.take(k) =~= s);
    }
}

/// Sort the top-level forms into definitions, graphs and the final
/// expression.
#[verifier::loop_isolation(false)]
pub fn parse_program(forms: Vec<SExpr>) -> (r: Result<Program, CompileError>)
    ensures
        match parse_program_terms(sterms_of(forms@)) {
            Ok(p) => r matches Ok(q) && q@ == p && forall|i: int| 0 <= i < q.graphs@.len() ==> (
            #[trigger] q.graphs@[i]).in_range(),
            Err(m) => r matches Err(e) && e.0@ == m,
        },
{
    proof { lemma_sterms_of(forms@); }
    let ghost all = sterms_of(forms@);
    let mut definitions: Vec<Definition> = Vec::new();
    let mut graphs: Vec<GraphDefinition> = Vec::new();
    let mut body: Option<Expr> = None;
    let mut i: usize = 0;
    proof {
        assert(all.take(0) =~= Seq::empty());
        assert(ast_defs_of(definitions@) =~= Seq::empty());
        assert(graphs@.map_values(|g: GraphDefinition| g@) =~= Seq::empty());
    }
    while i < forms.len()
        invariant
            i <= forms.len(),
            all == sterms_of(forms@),
            all.len() == forms@.len(),
            forall|j: int| 0 <= j < forms@.len() ==> #[trigger] all[j] == sterm_of(forms@[j]),
            parse_program_terms(all.take(i as int)) == Ok::<AstProgram, Seq<char>>(
                (Program { definitions, graphs, body })@,
            ),
            forall|j: int| 0 <= j < graphs@.len() ==> (#[trigger] graphs@[j]).in_range(),
        decreases forms.len() - i,
    {
        proof {
            assert(all.take(i + 1).drop_last() =~= all.take(i as int));
            assert(all.take(i + 1).last() == sterm_of(forms@[i as int]));
        }
        let form = &forms[i];
        if is_graph_define(form) {
            if body.is_some() {
                proof { lemma_program_error(all, i + 1); }
                return Err(crate::error("a top-level definition cannot follow the program expression"));
            }
            match parse_graph_define(form) {
                Ok(g) => {
                    let ghost before = graphs@;
                    graphs.push(g);
                    proof {
                        assert(graphs@.map_values(|g: GraphDefinition| g@) =~= before.map_values(
                            |g: GraphDefinition| g@,
                        ).push(g@));
                    }
                },
                Err(e) => {
                    proof { lemma_program_error(all, i + 1); }
                    return Err(e);
                },
            }
        } else if is_define(form) {
            if body.is_some() {
                proof { lemma_program_error(all, i + 1); }
                return Err(crate::error("a top-level define cannot follow the program expression"));
            }
            match parse_define(form) {
                Ok(d) => {
                    proof { assert(ast_defs_of(definitions@.push(d)) =~= ast_defs_of(definitions@).push(d@)); }
                    definitions.push(d);
                },
                Err(e) => {
                    proof { lemma_program_error(all, i + 1); }
                    return Err(e);
                },
            }
        } else {
            match parse_expr(form) {
                Ok(e) => {
                    if body.is_some() {
                        proof { lemma_program_error(all, i + 1); }
                        return Err(crate::error("only one final top-level expression is supported"));
                    }
                    body = Some(e);
                },
                Err(e) => {
                    proof { lemma_program_error(all, i + 1); }
                    return Err(e);
                },
            }
        }
        i = i + 1;
    }
    proof { assert(all.take(forms.len() as int) =~= all); }
    Ok(Program { definitions, graphs, body })
}


// ---------------------------------------------------------------------------
// What a parsed program guarantees
// ---------------------------------------------------------------------------

/// A graph whose inputs and outputs are distinct node ids, whose edges join
/// nodes in range with a non-zero weight, and no two of whose edges join the
/// same pair of nodes.
pub open spec fn well_formed_graph(g: GraphTerm) -> bool {
    &&& forall|i: int, j: int| 0 <= i < j < g.inputs.len() ==> g.inputs[i] != g.inputs[j]
    &&& forall|i: int, j: int| 0 <= i < j < g.outputs.len() ==> g.outputs[i] != g.outputs[j]
    &&& forall|i: int| 0 <= i < g.inputs.len() ==> g.inputs[i] < g.nodes
    &&& forall|i: int| 0 <= i < g.outputs.len() ==> g.outputs[i] < g.nodes
    &&& forall|i: int|
        0 <= i < g.edges.len() ==> g.edges[i].src < g.nodes && g.edges[i].dst < g.nodes && g.edges[i].weight != 0
    &&& forall|i: int, j: int|
        0 <= i < j < g.edges.len() ==> !(g.edges[i].src == g.edges[j].src && g.edges[i].dst == g.edges[j].dst)
}

proof fn lemma_no_repeat_usize(s: Seq<usize>)
    requires
        first_repeat_usize(s) is None,
    ensures
        forall|i: int, j: int| 0 <= i < j < s.len() ==> s[i] != s[j],
    decreases s.len(),
{
    if s.len() > 0 {
        lemma_no_repeat_usize(s.drop_last());
        assert forall|i: int, j: int| 0 <= i < j < s.len() implies s[i] != s[j] by {
            assert(s.drop_last()[i] == s[i]);
            if j == s.len() - 1 {
                assert(s.drop_last().contains(s[i]));
            } else {
                assert(s.drop_last()[j] == s[j]);
            }
        }
    }
}

proof fn lemma_none_outside(s: Seq<usize>, nodes: usize)
    requires
        first_outside(s, nodes) is None,
    ensures
        forall|i: int| 0 <= i < s.len() ==> s[i] < nodes,
    decreases s.len(),
{
    if s.len() > 0 {
        lemma_none_outside(s.drop_last(), nodes);
        assert forall|i: int| 0 <= i < s.len() implies s[i] < nodes by {
            if i < s.len() - 1 {
                assert(s.drop_last()[i] == s[i]);
            }
        }
    }
}

proof fn lemma_no_bad_edge(s: Seq<GraphEdge>, nodes: usize)
    requires
        first_bad_edge(s, nodes) is None,
    ensures
        forall|i: int| 0 <= i < s.len() ==> s[i].src < nodes && s[i].dst < nodes && s[i].weight != 0,
    decreases s.len(),
{
    if s.len() > 0 {
        lemma_no_bad_edge(s.drop_last(), nodes);
        assert forall|i: int| 0 <= i < s.len() implies s[i].src < nodes && s[i].dst < nodes && s[i].weight != 0 by {
            if i < s.len() - 1 {
                assert(s.drop_last()[i] == s[i]);
            }
        }
    }
}

proof fn lemma_no_duplicate_edge(s: Seq<GraphEdge>)
    requires
        first_duplicate_edge(s) is None,
    ensures
        forall|i: int, j: int| 0 <= i < j < s.len() ==> !(s[i].src == s[j].src && s[i].dst == s[j].dst),
    decreases s.len(),
{
    if s.len() > 0 {
        lemma_no_duplicate_edge(s.drop_last());
        assert forall|i: int, j: int| 0 <= i < j < s.len() implies !(s[i].src == s[j].src && s[i].dst == s[j].dst) by {
            assert(s.drop_last()[i] == s[i]);
            if j < s.len() - 1 {
                assert(s.drop_last()[j] == s[j]);
            } else {
                assert(s[j] == s.last());
            }
        }
    }
}

/// Every graph declaration the parser accepts is well formed.
pub proof fn lemma_parsed_graphs_well_formed(items: Seq<STerm>)
    ensures
        parse_graph_term(items) matches Ok(g) ==> well_formed_graph(g),
{
    if let Ok(g) = parse_graph_term(items) {
        assert(graph_checked(g) == Ok::<GraphTerm, Seq<char>>(g));
        lemma_no_repeat_usize(g.inputs);
        lemma_no_repeat_usize(g.outputs);
        lemma_none_outside(g.inputs + g.outputs, g.nodes);
        assert forall|i: int| 0 <= i < g.outputs.len() implies g.outputs[i] < g.nodes by {
            assert((g.inputs + g.outputs)[g.inputs.len() + i] == g.outputs[i]);
        }
        assert forall|i: int| 0 <= i < g.inputs.len() implies g.inputs[i] < g.nodes by {
            assert((g.inputs + g.outputs)[i] == g.inputs[i]);
        }
        lemma_no_bad_edge(g.edges, g.nodes);
        lemma_no_duplicate_edge(g.edges);
    }
}

/// `(define (f a ...) body)` and `(define f (lambda (a ...) body))` are the
/// same definition: one is accepted exactly when the other is, and then
/// both give the same name and lambda.
pub proof fn lemma_define_forms_agree(f: Seq<char>, params: Seq<STerm>, body: STerm)
    ensures
        parse_define_term(seq![STerm::Symbol("define"@), STerm::List(seq![STerm::Symbol(f)] + params), body]) is Ok
            <==> parse_define_term(
            seq![
                STerm::Symbol("define"@),
                STerm::Symbol(f),
                STerm::List(seq![STerm::Symbol("lambda"@), STerm::List(params), body]),
            ],
        ) is Ok,
        parse_define_term(seq![STerm::Symbol("define"@), STerm::List(seq![STerm::Symbol(f)] + params), body]) is Ok
            ==> parse_define_term(
            seq![STerm::Symbol("define"@), STerm::List(seq![STerm::Symbol(f)] + params), body],
        ) == parse_define_term(
            seq![
                STerm::Symbol("define"@),
                STerm::Symbol(f),
                STerm::List(seq![STerm::Symbol("lambda"@), STerm::List(params), body]),
            ],
        ),
{
    let sig = seq![STerm::Symbol(f)] + params;
    assert(sig.drop_first() =~= params);
    assert(sig[0] == STerm::Symbol(f));
    let lam = seq![STerm::Symbol("lambda"@), STerm::List(params), body];
    assert(head_of(lam) == Some("lambda"@));
    assert(lam.len() != 0);
    assert(parse_term(STerm::List(lam)) == parse_list(lam));
}

/// The pair forms parse to the pair operations they name: `(cons a b)` to
/// the pair of `a` and `b`, `(car x)` to the head of `x`, `(cdr x)` to its
/// tail and `(null? x)` to its emptiness test, whenever the operands parse.
pub proof fn lemma_pair_forms_parse(x: STerm, y: STerm)
    ensures
        parse_term(x) matches Ok(a) ==> parse_term(STerm::List(seq![STerm::Symbol("car"@), x])) == Ok::<
            AstTerm,
            Seq<char>,
        >(AstTerm::Car(Box::new(a))),
        parse_term(x) matches Ok(a) ==> parse_term(STerm::List(seq![STerm::Symbol("cdr"@), x])) == Ok::<
            AstTerm,
            Seq<char>,
        >(AstTerm::Cdr(Box::new(a))),
        parse_term(x) matches Ok(a) ==> parse_term(STerm::List(seq![STerm::Symbol("null?"@), x])) == Ok::<
            AstTerm,
            Seq<char>,
        >(AstTerm::Null(Box::new(a))),
        parse_term(x) is Ok && parse_term(y) is Ok ==> parse_term(STerm::List(seq![STerm::Symbol("cons"@), x, y]))
            == Ok::<AstTerm, Seq<char>>(
            AstTerm::Cons(Box::new(parse_term(x)->Ok_0), Box::new(parse_term(y)->Ok_0)),
        ),
{
    reveal_strlit("car");
    reveal_strlit("cdr");
    reveal_strlit("null?");
    reveal_strlit("cons");
    reveal_strlit("lambda");
    reveal_strlit("if");
    reveal_strlit("let");
    let car = seq![STerm::Symbol("car"@), x];
    let cdr = seq![STerm::Symbol("cdr"@), x];
    let nul = seq![STerm::Symbol("null?"@), x];
    let con = seq![STerm::Symbol("cons"@), x, y];
    assert(head_of(car) == Some("car"@));
    assert(head_of(cdr) == Some("cdr"@));
    assert(head_of(nul) == Some("null?"@));
    assert(head_of(con) == Some("cons"@));
    assert(car[1] == x && cdr[1] == x && nul[1] == x && con[1] == x && con[2] == y);
    assert(car.len() == 2 && cdr.len() == 2 && nul.len() == 2 && con.len() == 3);
    assert("car"@ != "lambda"@) by { assert("car"@.len() != "lambda"@.len() || "car"@[0] != "lambda"@[0] || "car"@[1] != "lambda"@[1]); }
    assert("car"@ != "if"@) by { assert("car"@.len() != "if"@.len() || "car"@[0] != "if"@[0] || "car"@[1] != "if"@[1]); }
    assert("car"@ != "let"@) by { assert("car"@.len() != "let"@.len() || "car"@[0] != "let"@[0] || "car"@[1] != "let"@[1]); }
    assert("car"@ != "cons"@) by { assert("car"@.len() != "cons"@.len() || "car"@[0] != "cons"@[0] || "car"@[1] != "cons"@[1]); }
    assert("cdr"@ != "lambda"@) by { assert("cdr"@.len() != "lambda"@.len() || "cdr"@[0] != "lambda"@[0] || "cdr"@[1] != "lambda"@[1]); }
    assert("cdr"@ != "if"@) by { assert("cdr"@.len() != "if"@.len() || "cdr"@[0] != "if"@[0] || "cdr"@[1] != "if"@[1]); }
    assert("cdr"@ != "let"@) by { assert("cdr"@.len() != "let"@.len() || "cdr"@[0] != "let"@[0] || "cdr"@[1] != "let"@[1]); }
    assert("cdr"@ != "cons"@) by { assert("cdr"@.len() != "cons"@.len() || "cdr"@[0] != "cons"@[0] || "cdr"@[1] != "cons"@[1]); }
    assert("cdr"@ != "car"@) by { assert("cdr"@.len() != "car"@.len() || "cdr"@[0] != "car"@[0] || "cdr"@[1] != "car"@[1]); }
    assert("null?"@ != "lambda"@) by { assert("null?"@.len() != "lambda"@.len() || "null?"@[0] != "lambda"@[0] || "null?"@[1] != "lambda"@[1]); }
    assert("null?"@ != "if"@) by { assert("null?"@.len() != "if"@.len() || "null?"@[0] != "if"@[0] || "null?"@[1] != "if"@[1]); }
    assert("null?"@ != "let"@) by { assert("null?"@.len() != "let"@.len() || "null?"@[0] != "let"@[0] || "null?"@[1] != "let"@[1]); }
    assert("null?"@ != "cons"@) by { assert("null?"@.len() != "cons"@.len() || "null?"@[0] != "cons"@[0] || "null?"@[1] != "cons"@[1]); }
    assert("null?"@ != "car"@) by { assert("null?"@.len() != "car"@.len() || "null?"@[0] != "car"@[0] || "null?"@[1] != "car"@[1]); }
    assert("null?"@ != "cdr"@) by { assert("null?"@.len() != "cdr"@.len() || "null?"@[0] != "cdr"@[0] || "null?"@[1] != "cdr"@[1]); }
    assert("cons"@ != "lambda"@) by { assert("cons"@.len() != "lambda"@.len() || "cons"@[0] != "lambda"@[0] || "cons"@[1] != "lambda"@[1]); }
    assert("cons"@ != "if"@) by { assert("cons"@.len() != "if"@.len() || "cons"@[0] != "if"@[0] || "cons"@[1] != "if"@[1]); }
    assert("cons"@ != "let"@) by { assert("cons"@.len() != "let"@.len() || "cons"@[0] != "let"@[0] || "cons"@[1] != "let"@[1]); }
    assert(parse_term(STerm::List(car)) == parse_list(car));
    assert(parse_term(STerm::List(cdr)) == parse_list(cdr));
    assert(parse_term(STerm::List(nul)) == parse_list(nul));
    assert(parse_term(STerm::List(con)) == parse_list(con));
    if let (Ok(a), Ok(b)) = (parse_term(x), parse_term(y)) {
        assert(head_of(con) != Some("lambda"@) && head_of(con) != Some("if"@) && head_of(con) != Some("let"@));
        assert(parse_list(con) == Ok::<AstTerm, Seq<char>>(AstTerm::Cons(Box::new(a), Box::new(b))));
    }
}

/// `(if c a b)` parses to the conditional whose condition is `c`, whose
/// branch taken on a true condition is `a` and whose other branch is `b`.
pub proof fn lemma_if_form_parses(c: STerm, x: STerm, y: STerm)
    ensures
        parse_term(c) is Ok && parse_term(x) is Ok && parse_term(y) is Ok ==> parse_term(
            STerm::List(seq![STerm::Symbol("if"@), c, x, y]),
        ) == Ok::<AstTerm, Seq<char>>(
            AstTerm::If {
                condition: Box::new(parse_term(c)->Ok_0),
                then_branch: Box::new(parse_term(x)->Ok_0),
                else_branch: Box::new(parse_term(y)->Ok_0),
            },
        ),
{
    reveal_strlit("if");
    reveal_strlit("lambda");
    let f = seq![STerm::Symbol("if"@), c, x, y];
    assert("if"@ != "lambda"@) by {
        assert("if"@.len() != "lambda"@.len());
    }
    assert(head_of(f) == Some("if"@));
    assert(f[1] == c && f[2] == x && f[3] == y && f.len() == 4);
    assert(parse_term(STerm::List(f)) == parse_list(f));
}

/// A list of node ids written as numbers, none negative, reads as exactly
/// those ids in order.
pub proof fn lemma_graph_ids_as_written(ids: Seq<usize>, label: Seq<char>)
    requires
        forall|i: int| 0 <= i < ids.len() ==> ids[i] <= i64::MAX,
    ensures
        graph_usizes_of(Seq::new(ids.len(), |i: int| STerm::Number(ids[i] as i64)), label) == Ok::<
            Seq<usize>,
            Seq<char>,
        >(ids),
    decreases ids.len(),
{
    let s = Seq::new(ids.len(), |i: int| STerm::Number(ids[i] as i64));
    if ids.len() > 0 {
        let front = ids.drop_last();
        assert forall|i: int| 0 <= i < front.len() implies front[i] <= i64::MAX by {
            assert(front[i] == ids[i]);
        }
        lemma_graph_ids_as_written(front, label);
        assert(s.drop_last() =~= Seq::new(front.len(), |i: int| STerm::Number(front[i] as i64)));
        assert(s.last() == STerm::Number(ids.last() as i64));
        assert(ids[ids.len() - 1] <= i64::MAX);
        assert((ids.last() as i64) as usize == ids.last());
        assert(front.push(ids.last()) =~= ids);
    } else {
        assert(ids =~= Seq::<usize>::empty());
    }
}

/// `(nodes n)`, `(inputs (i ...))` and `(outputs (o ...))` written with
/// numbers that are not negative read as exactly those numbers.
pub proof fn lemma_graph_counts_as_written(label: Seq<char>, v: i64, ids: Seq<usize>)
    requires
        0 <= v <= usize::MAX,
        forall|i: int| 0 <= i < ids.len() ==> ids[i] <= i64::MAX,
    ensures
        graph_count_of(STerm::List(seq![STerm::Symbol(label), STerm::Number(v)]), label) == Ok::<usize, Seq<char>>(
            v as usize,
        ),
        graph_ids_of(
            STerm::List(
                seq![STerm::Symbol(label), STerm::List(Seq::new(ids.len(), |i: int| STerm::Number(ids[i] as i64)))],
            ),
            label,
        ) == Ok::<Seq<usize>, Seq<char>>(ids),
{
    lemma_graph_ids_as_written(ids, label);
    let c = seq![STerm::Symbol(label), STerm::Number(v)];
    assert(c[0] == STerm::Symbol(label) && c[1] == STerm::Number(v));
    let l = seq![STerm::Symbol(label), STerm::List(Seq::new(ids.len(), |i: int| STerm::Number(ids[i] as i64)))];
    assert(l[0] == STerm::Symbol(label));
}

/// A graph edge `(s d w)` written with numbers, `s` and `d` not negative,
/// is the edge from `s` to `d` with weight `w`, the number written.
pub proof fn lemma_graph_edge_as_written(s: i64, d: i64, w: i64)
    requires
        0 <= s <= usize::MAX,
        0 <= d <= usize::MAX,
    ensures
        graph_edge_of(STerm::List(seq![STerm::Number(s), STerm::Number(d), STerm::Number(w)])) == Ok::<
            GraphEdge,
            Seq<char>,
        >(GraphEdge { src: s as usize, dst: d as usize, weight: w }),
{
    let e = seq![STerm::Number(s), STerm::Number(d), STerm::Number(w)];
    assert(e[0] == STerm::Number(s) && e[1] == STerm::Number(d) && e[2] == STerm::Number(w));
}

}
