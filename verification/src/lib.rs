//! A deliberately small compiler pipeline: S-expressions -> Scheme AST -> IR -> Bend.
pub mod ast;
pub mod chunking;
pub mod graph;
pub mod peval;
pub mod residual;
pub mod scoping;
pub mod semantics;
pub mod sexpr;
pub mod shape;
pub mod sharing;
pub mod ir;
pub mod optimize;
pub mod text;

use crate::ir::first_repeat;
use crate::optimize::{default_options, optimized, Options};
use vstd::prelude::*;
use vstd::string::StringExecFns;

verus! {

/// A diagnostic for a program outside the supported subset.
#[derive(Debug, Clone, PartialEq, Eq)]
pub struct CompileError(pub String);

impl CompileError {
    /// The diagnostic text.
    pub fn to_string(&self) -> (r: String)
        ensures
            r@ == self.0@,
    {
        self.0.clone()
    }
}

/// The diagnostic for a program with more local names than a `usize` can
/// number.
pub open spec fn too_many_locals() -> Seq<char> {
    "the program binds more local names than the compiler can number"@
}

/// What compiling `source` gives: the first diagnostic met while reading,
/// parsing and lowering it, or its optimized functional IR.
pub open spec fn compiled(source: Seq<char>, options: Options, r: Result<ir::Program, CompileError>) -> bool {
    match sexpr::parsed(source) {
        Err(m) => r matches Err(e) && e.0@ == m,
        Ok(forms) => match ast::parse_program_terms(forms) {
            Err(m) => r matches Err(e) && e.0@ == m,
            Ok(p) => if ir::program_binders(p) >= usize::MAX {
                r matches Err(e) && e.0@ == too_many_locals()
            } else {
                match first_repeat(ir::top_level_names(p)) {
                    Some(name) => r matches Err(e) && e.0@ == ir::duplicate_error(name),
                    None => match ir::lowered_definitions(p.definitions, 0) {
                        Err(m) => r matches Err(e) && e.0@ == m,
                        Ok((defs, n)) => match ir::first_graph_error(p.graphs) {
                            Some(m) => r matches Err(e) && e.0@ == m,
                            None => match ir::lowered_body(p.body, n) {
                                Err(m) => r matches Err(e) && e.0@ == m,
                                Ok(b) => r matches Ok(q) && q@ == optimized(
                                    ir::ProgramTerm { definitions: defs, body: b },
                                    options,
                                ) && q.graphs@.len() == p.graphs.len() && forall|i: int|
                                    0 <= i < q.graphs@.len() ==> graph::scheduled_from(#[trigger] q.graphs@[i], p.graphs[i]),
                            },
                        },
                    },
                }
            },
        },
    }
}

/// The program `source` reads, parses and lowers to, before any
/// optimization.
pub open spec fn lowered_source(source: Seq<char>) -> Option<ir::ProgramTerm> {
    match sexpr::parsed(source) {
        Ok(forms) => match ast::parse_program_terms(forms) {
            Ok(p) => match ir::lowered_definitions(p.definitions, 0) {
                Ok((defs, n)) => match ir::lowered_body(p.body, n) {
                    Ok(b) => Some(ir::ProgramTerm { definitions: defs, body: b }),
                    Err(_) => None,
                },
                Err(_) => None,
            },
            Err(_) => None,
        },
        Err(_) => None,
    }
}

/// No definition of the program `source` holds writes a variable or
/// function name that has the shape of a compiler local.
pub open spec fn plain_source(source: Seq<char>) -> bool {
    match sexpr::parsed(source) {
        Ok(forms) => match ast::parse_program_terms(forms) {
            Ok(p) => scoping::plain_definitions(p.definitions),
            Err(_) => true,
        },
        Err(_) => true,
    }
}

/// A list with no repeat holds no name twice.
proof fn lemma_no_repeat(s: Seq<Seq<char>>)
    requires
        first_repeat(s) is None,
    ensures
        forall|i: int, j: int| 0 <= i < j < s.len() ==> s[i] != s[j],
    decreases s.len(),
{
    if s.len() > 0 {
        lemma_no_repeat(s.drop_last());
        assert forall|i: int, j: int| 0 <= i < j < s.len() implies s[i] != s[j] by {
            assert(s.drop_last()[i] == s[i]);
            if j == s.len() - 1 {
                assert(s.drop_last().contains(s[i]));
            } else {
                assert(s.drop_last()[j] == s[j]);
            }
        }
    }
}

/// Lowering keeps each definition's name, in order.
proof fn lemma_lowered_names(ds: Seq<ast::AstDef>, n: nat)
    ensures
        ir::lowered_definitions(ds, n) matches Ok((defs, _)) ==> defs.len() == ds.len() && forall|i: int|
            0 <= i < ds.len() ==> (#[trigger] defs[i]).name == ds[i].name,
    decreases ds.len(),
{
    if ds.len() > 0 {
        lemma_lowered_names(ds.drop_last(), n);
        if let Ok((defs, _)) = ir::lowered_definitions(ds, n) {
            let (front, n1) = ir::lowered_definitions(ds.drop_last(), n)->Ok_0;
            assert forall|i: int| 0 <= i < ds.len() implies (#[trigger] defs[i]).name == ds[i].name by {
                if i < ds.len() - 1 {
                    assert(defs[i] == front[i]);
                    assert(ds.drop_last()[i] == ds[i]);
                }
            }
        }
    }
}

/// Compiling without partial evaluation or the balanced reshape never
/// changes a result: the compiled final expression, calling the compiled
/// definitions, gives every value that the directly lowered program
/// computes, and every compiled definition, called with its parameters
/// bound, gives every value the lowered definition gave (with sharing off,
/// whatever it is called with). Inlining and tail unrolling may be on, one
/// at a time with any other shape or together with reductions as written,
/// when the program writes no name with the shape of a compiler local.
/// Sharing may be on where every compiled body reads only its parameters and
/// the names it binds itself, rebinds none of them, keeps its literals in
/// range and applies every primitive to two operands.
pub proof fn lemma_compile_keeps_result(
    source: Seq<char>,
    options: Options,
    q: ir::Program,
    env: Map<Seq<char>, semantics::Value>,
    fuel: nat,
)
    requires
        compiled(source, options, Ok(q)),
        options.inline_helpers || options.tail_unroll > 1 ==> plain_source(source),
        options.inline_helpers && options.tail_unroll > 1 ==> options.shape == shape::Shape::AsWritten,
        !(options.shape is Balanced),
        options.peval == 0,
        options.common_subexpressions ==> sharing::bodies_well_formed(q@.definitions) && (q@.body matches Some(b)
            && sharing::well_formed_in(b, Seq::empty())),
        lowered_source(source) is Some,
        lowered_source(source).unwrap().body is Some,
        semantics::evaluated(
            lowered_source(source).unwrap().definitions,
            lowered_source(source).unwrap().body.unwrap(),
            env,
            fuel,
        ) is Some,
    ensures
        q@.body is Some,
        semantics::evaluated(q@.definitions, q@.body.unwrap(), env, fuel) == semantics::evaluated(
            lowered_source(source).unwrap().definitions,
            lowered_source(source).unwrap().body.unwrap(),
            env,
            fuel,
        ),
        semantics::keeps_calls(lowered_source(source).unwrap().definitions, q@.definitions),
        !options.common_subexpressions ==> semantics::keeps_definitions(
            lowered_source(source).unwrap().definitions,
            q@.definitions,
        ),
{
    let forms = sexpr::parsed(source)->Ok_0;
    let p = ast::parse_program_terms(forms)->Ok_0;
    let (defs, n) = ir::lowered_definitions(p.definitions, 0)->Ok_0;
    semantics::lemma_lowered_definitions_shape(p.definitions, 0);
    semantics::lemma_lowered_body_shape(p.body, n);
    let names = ir::top_level_names(p);
    lemma_no_repeat(names);
    lemma_lowered_names(p.definitions, 0);
    assert forall|i: int, j: int| #![trigger defs[i], defs[j]] 0 <= i < j < defs.len() implies defs[i].name
        != defs[j].name by {
        assert(names[i] == p.definitions[i].name);
        assert(names[j] == p.definitions[j].name);
    }
    if options.inline_helpers || options.tail_unroll > 1 {
        scoping::lemma_lowered_definitions_hygienic(p.definitions, 0);
    }
    semantics::lemma_optimizing_keeps_program_result(lowered_source(source).unwrap(), options, env, fuel);
}

/// Partial evaluation of a lowered program never changes a result, whatever
/// its fuel: the rewritten final expression, calling the rewritten
/// definitions, gives every value that the lowered program computes, and so
/// does every rewritten definition.
pub proof fn lemma_peval_keeps_lowered_result(
    source: Seq<char>,
    pf: nat,
    env: Map<Seq<char>, semantics::Value>,
    fuel: nat,
)
    requires
        lowered_source(source) is Some,
        lowered_source(source).unwrap().body is Some,
        semantics::evaluated(
            lowered_source(source).unwrap().definitions,
            lowered_source(source).unwrap().body.unwrap(),
            env,
            fuel,
        ) is Some,
    ensures
        peval::pevaled(lowered_source(source).unwrap(), pf).body is Some,
        semantics::evaluated(
            peval::pevaled(lowered_source(source).unwrap(), pf).definitions,
            peval::pevaled(lowered_source(source).unwrap(), pf).body.unwrap(),
            env,
            fuel,
        ) == semantics::evaluated(
            lowered_source(source).unwrap().definitions,
            lowered_source(source).unwrap().body.unwrap(),
            env,
            fuel,
        ),
        semantics::keeps_definitions(
            lowered_source(source).unwrap().definitions,
            peval::pevaled(lowered_source(source).unwrap(), pf).definitions,
        ),
{
    let forms = sexpr::parsed(source)->Ok_0;
    let p = ast::parse_program_terms(forms)->Ok_0;
    let (defs, n) = ir::lowered_definitions(p.definitions, 0)->Ok_0;
    semantics::lemma_lowered_params_unshadowed(p.definitions, 0);
    semantics::lemma_lowered_body_shape(p.body, n);
    residual::lemma_pevaled_keeps_result(lowered_source(source).unwrap(), pf, env, fuel);
}

/// Whether compiling fails, and with which diagnostic, does not depend on
/// the options: every error comes from reading, parsing, the local count or
/// lowering, before any optimization.
pub proof fn lemma_errors_ignore_options(
    source: Seq<char>,
    o1: Options,
    o2: Options,
    r1: Result<ir::Program, CompileError>,
    r2: Result<ir::Program, CompileError>,
)
    requires
        compiled(source, o1, r1),
        compiled(source, o2, r2),
    ensures
        r1 is Err <==> r2 is Err,
        r1 matches Err(e1) ==> r2 matches Err(e2) && e1.0@ == e2.0@,
{
}

/// Compile with every optimization at its default.
pub fn compile(source: &str) -> (r: Result<ir::Program, CompileError>)
    ensures
        compiled(source@, default_options(), r),
{
    compile_with_options(source, Options::default())
}

/// Read, parse, lower and optimize `source`.
pub fn compile_with_options(source: &str, options: Options) -> (r: Result<ir::Program, CompileError>)
    ensures
        compiled(source@, options, r),
{
    let forms = sexpr::parse(source)?;
    let program = ast::parse_program(forms)?;
    if ir::count_program_binders(&program) == usize::MAX {
        return Err(error("the program binds more local names than the compiler can number"));
    }
    let lowered = ir::lower(program)?;
    Ok(optimize::optimize(lowered, options))
}

/// A diagnostic holding `message`.
pub fn error(message: &str) -> (e: CompileError)
    ensures
        e.0@ == message@,
{
    CompileError(String::from_str(message))
}

}
