# scheme-bend, verified

A small compiler front end for an immutable Scheme subset that targets Bend,
written in Verus. Every function of the library in `src/` carries a contract
that Verus proves, with one exception: `text::push_char`, a trusted wrapper
around `String::push` (which vstd does not specify), whose contract Verus
believes.

```
Scheme source -> S-expressions -> Scheme AST -> functional IR -> optimized IR
                                          \-> static graph IR -> scheduled graph
```

## Layout

- `src/sexpr.rs`: the reader, specified character by character.
- `src/ast.rs`: parsing S-expressions into the Scheme AST, including
  `define-graph` declarations and their checks.
- `src/ir.rs`: the functional IR, constant folding within the signed 24-bit
  range, and lowering with freshly numbered locals.
- `src/graph.rs`: pruning, checking and scheduling of static graphs.
- `src/optimize.rs`: inlining, tail-recurrence unrolling, literal propagation,
  dead-binding removal, folding and sharing of repeated numeric work.
- `src/shape.rs`: re-association of counted `+`/`*` reductions.
- `src/peval.rs`: fuel-bounded partial evaluation.
- `src/residual.rs`: why what partial evaluation leaves computes what the
  program computed.
- `src/semantics.rs`: what an IR expression computes on the target, and the
  laws that folding, literal propagation, dead-binding removal, inlining,
  tail-recurrence unrolling and, on well-formed results, sharing keep it.
- `src/scoping.rs`: how lowering numbers its locals: every binder is a
  distinct local, and when the program writes no name shaped like a local,
  no `let` value sees its own binders and no helper mentions a name another
  definition binds.
- `src/sharing.rs`: what sharing leaves recoverable: fresh bindings of
  total numeric trees that, substituted back, give the expression that was
  shared, so finishing with sharing is finishing without it plus sharing,
  and a shared body that stays well formed computes what it computed.
- `src/chunking.rs`: why re-emitting a counted reduction as chain segments
  combined in a tree keeps its value.
- `src/text.rs`: decimal rendering and string helpers.
- `app/main.rs`: the command-line driver, which prints the optimized IR.

The tests under `tests/` exercise the library on concrete programs.
