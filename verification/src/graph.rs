//! The static graph pass: prune nodes that cannot reach an output, reject
//! cycles on live paths, and schedule the survivors topologically.
use crate::ast;
use crate::ir;
use crate::ir::{I24_MAX, I24_MIN};
use crate::{error, CompileError};
use std::collections::BTreeSet;
use vstd::prelude::*;

verus! {

/// Some edge of `g` runs from `u` to `v`.
pub open spec fn has_edge(g: ast::GraphTerm, u: usize, v: usize) -> bool {
    exists|k: int| 0 <= k < g.edges.len() && g.edges[k].src == u && g.edges[k].dst == v
}

/// `p` walks along edges of `g` and ends at an output.
pub open spec fn path_to_output(g: ast::GraphTerm, p: Seq<usize>) -> bool {
    &&& p.len() > 0
    &&& g.outputs.contains(p.last())
    &&& forall|i: int| 0 <= i < p.len() - 1 ==> has_edge(g, #[trigger] p[i], p[i + 1])
}

/// `v` can reach an output (an output reaches itself): such a node is live.
pub open spec fn is_live(g: ast::GraphTerm, v: usize) -> bool {
    exists|p: Seq<usize>| path_to_output(g, p) && p[0] == v
}

pub open spec fn is_input(g: ast::GraphTerm, v: usize) -> bool {
    g.inputs.contains(v)
}

/// `ord` lists every live node once, each after all of its live predecessors.
pub open spec fn is_live_order(g: ast::GraphTerm, ord: Seq<usize>) -> bool {
    &&& ord.no_duplicates()
    &&& forall|v: usize| is_live(g, v) <==> ord.contains(v)
    &&& forall|i: int, k: int|
        0 <= i < ord.len() && 0 <= k < g.edges.len() && g.edges[k].dst == #[trigger] ord[i]
            && is_live(g, #[trigger] g.edges[k].src) ==> exists|j: int|
            0 <= j < i && ord[j] == g.edges[k].src
}

/// The live part of `g` has no cycle: its nodes can be put in dependency order.
pub open spec fn live_acyclic(g: ast::GraphTerm) -> bool {
    exists|ord: Seq<usize>| is_live_order(g, ord)
}

pub open spec fn edge_into_input(g: ast::GraphTerm) -> bool {
    exists|k: int| 0 <= k < g.edges.len() && is_input(g, #[trigger] g.edges[k].dst)
}

pub open spec fn weight_out_of_range(g: ast::GraphTerm) -> bool {
    exists|k: int|
        0 <= k < g.edges.len() && !(I24_MIN <= #[trigger] g.edges[k].weight <= I24_MAX)
}

/// The edges among the first `m` whose endpoints are both live, in order.
pub open spec fn live_edges(g: ast::GraphTerm, m: int) -> Seq<ir::GraphEdge>
    decreases m,
{
    if m <= 0 {
        Seq::empty()
    } else {
        let e = g.edges[m - 1];
        let rest = live_edges(g, m - 1);
        if is_live(g, e.src) && is_live(g, e.dst) {
            rest.push(ir::GraphEdge { src: e.src, dst: e.dst, weight: e.weight })
        } else {
            rest
        }
    }
}

/// `schedule` lists every live non-input node once, each after all of its
/// live non-input predecessors.
pub open spec fn is_schedule(g: ast::GraphTerm, schedule: Seq<usize>) -> bool {
    &&& schedule.no_duplicates()
    &&& forall|v: usize| (is_live(g, v) && !is_input(g, v)) <==> schedule.contains(v)
    &&& forall|i: int, k: int|
        0 <= i < schedule.len() && 0 <= k < g.edges.len() && g.edges[k].dst
            == #[trigger] schedule[i] && is_live(g, #[trigger] g.edges[k].src) && !is_input(
            g,
            g.edges[k].src,
        ) ==> exists|j: int| 0 <= j < i && schedule[j] == g.edges[k].src
}

pub open spec fn input_edge_error(dst: usize) -> Seq<char> {
    "graph input node "@ + crate::text::decimal(dst as nat) + " cannot have an incoming edge"@
}

pub open spec fn weight_error(weight: i64) -> Seq<char> {
    "graph edge weight `"@ + crate::text::signed_decimal(weight as int)
        + "` is outside Bend's signed 24-bit range (-8388608..=8388607)"@
}

pub open spec fn cycle_error() -> Seq<char> {
    "static graph contains a cycle on a live path; cyclic graphs are not supported yet"@
}

/// The problem with the first edge that has one: it enters an input, or its
/// weight is outside the signed 24-bit range.
pub open spec fn first_edge_error(edges: Seq<ast::GraphEdge>, inputs: Seq<usize>) -> Option<Seq<char>>
    decreases edges.len(),
{
    if edges.len() == 0 {
        None
    } else {
        match first_edge_error(edges.drop_last(), inputs) {
            Some(m) => Some(m),
            None => if inputs.contains(edges.last().dst) {
                Some(input_edge_error(edges.last().dst))
            } else if !(I24_MIN <= edges.last().weight <= I24_MAX) {
                Some(weight_error(edges.last().weight))
            } else {
                None
            },
        }
    }
}

/// The diagnostic for a graph the pass refuses: the first bad edge, or else
/// a cycle on a live path.
pub open spec fn graph_error(g: ast::GraphTerm) -> Seq<char> {
    match first_edge_error(g.edges, g.inputs) {
        Some(m) => m,
        None => cycle_error(),
    }
}

proof fn lemma_first_edge_error_prefix(edges: Seq<ast::GraphEdge>, inputs: Seq<usize>, k: int)
    requires
        0 <= k <= edges.len(),
        first_edge_error(edges.take(k), inputs) is Some,
    ensures
        first_edge_error(edges, inputs) == first_edge_error(edges.take(k), inputs),
    decreases edges.len() - k,
{
    if k < edges.len() {
        assert(edges.take(k + 1).drop_last() =~= edges.take(k));
        lemma_first_edge_error_prefix(edges, inputs, k + 1);
    } else {
        assert(edges.take(k) =~= edges);
    }
}

/// What the graph pass promises of a successful result.
pub open spec fn scheduled_from(out: ir::GraphDefinition, g: ast::GraphTerm) -> bool {
    &&& out.name@ == g.name
    &&& out.nodes == g.nodes
    &&& out.inputs@ == g.inputs
    &&& out.outputs@ == g.outputs
    &&& forall|v: usize| out.live_nodes@.contains(v) <==> is_live(g, v)
    &&& is_schedule(g, out.schedule@)
    &&& out.schedule@ == schedule_of(g)
    &&& out.edges@ == live_edges(g, g.edges.len() as int)
}

/// `e` is one of the first `m` declared edges, both of whose ends are live,
/// with the source, target and weight it was declared with.
pub open spec fn declared_live(g: ast::GraphTerm, m: int, e: ir::GraphEdge) -> bool {
    exists|k: int|
        #![trigger g.edges[k]]
        0 <= k < m && is_live(g, g.edges[k].src) && is_live(g, g.edges[k].dst) && e == (ir::GraphEdge {
            src: g.edges[k].src,
            dst: g.edges[k].dst,
            weight: g.edges[k].weight,
        })
}

/// A scheduled graph keeps, of the first `m` declared edges, exactly those
/// whose two ends are live: each kept edge is a declared edge with both ends
/// live, with the source, target and weight it was declared with, and each
/// such declared edge is kept.
pub proof fn lemma_live_edges_as_declared(g: ast::GraphTerm, m: int)
    requires
        0 <= m <= g.edges.len(),
    ensures
        forall|i: int| 0 <= i < live_edges(g, m).len() ==> declared_live(g, m, #[trigger] live_edges(g, m)[i]),
        forall|k: int|
            0 <= k < m && is_live(g, #[trigger] g.edges[k].src) && is_live(g, g.edges[k].dst) ==> live_edges(
                g,
                m,
            ).contains(ir::GraphEdge { src: g.edges[k].src, dst: g.edges[k].dst, weight: g.edges[k].weight }),
    decreases m,
{
    if m > 0 {
        lemma_live_edges_as_declared(g, m - 1);
        let rest = live_edges(g, m - 1);
        let e = g.edges[m - 1];
        let out = live_edges(g, m);
        let kept = is_live(g, e.src) && is_live(g, e.dst);
        let ne = ir::GraphEdge { src: e.src, dst: e.dst, weight: e.weight };
        assert forall|i: int| 0 <= i < out.len() implies declared_live(g, m, #[trigger] out[i]) by {
            if i < rest.len() {
                assert(out[i] == rest[i]);
                assert(declared_live(g, m - 1, rest[i]));
                let k = choose|k: int|
                    #![trigger g.edges[k]]
                    0 <= k < m - 1 && is_live(g, g.edges[k].src) && is_live(g, g.edges[k].dst) && rest[i]
                        == (ir::GraphEdge { src: g.edges[k].src, dst: g.edges[k].dst, weight: g.edges[k].weight });
                assert(g.edges[k] == g.edges[k]);
            } else {
                assert(kept && out[i] == ne);
                assert(g.edges[m - 1] == e);
            }
        }
        assert forall|k: int|
            0 <= k < m && is_live(g, #[trigger] g.edges[k].src) && is_live(g, g.edges[k].dst) implies out.contains(
            ir::GraphEdge { src: g.edges[k].src, dst: g.edges[k].dst, weight: g.edges[k].weight },
        ) by {
            let x = ir::GraphEdge { src: g.edges[k].src, dst: g.edges[k].dst, weight: g.edges[k].weight };
            if k < m - 1 {
                let i = choose|i: int| 0 <= i < rest.len() && rest[i] == x;
                assert(out[i] == rest[i]);
            } else {
                assert(out[rest.len() as int] == ne);
            }
        }
    }
}

/// The graph's mathematical value holds its fields.
proof fn lemma_graph_view(g: &ast::GraphDefinition)
    ensures
        g@.edges == g.edges@,
        g@.inputs == g.inputs@,
        g@.outputs == g.outputs@,
        g@.nodes == g.nodes,
        g@.name == g.name@,
{
}

proof fn lemma_live_in_range(g: &ast::GraphDefinition, v: usize)
    requires
        g.in_range(),
        is_live(g@, v),
    ensures
        v < g.nodes,
{
    lemma_graph_view(g);
    let p = choose|p: Seq<usize>| path_to_output(g@, p) && p[0] == v;
    if p.len() == 1 {
        assert(g.outputs@.contains(p.last()));
    } else {
        assert(has_edge(g@, p[0], p[1]));
    }
}

proof fn lemma_extend_path(g: &ast::GraphDefinition, u: usize, k: int)
    requires
        0 <= k < g.edges@.len(),
        g.edges@[k].src == u,
        is_live(g@, g.edges@[k].dst),
    ensures
        is_live(g@, u),
{
    lemma_graph_view(g);
    let p = choose|p: Seq<usize>| path_to_output(g@, p) && p[0] == g.edges@[k].dst;
    let q = seq![u] + p;
    assert(q.last() == p.last());
    assert forall|i: int| 0 <= i < q.len() - 1 implies has_edge(g@, #[trigger] q[i], q[i + 1]) by {
        if i == 0 {
            assert(q[1] == p[0]);
        } else {
            assert(q[i] == p[i - 1]);
            assert(q[i + 1] == p[i]);
            assert(has_edge(g@, p[i - 1], p[(i - 1) + 1]));
        }
    }
    assert(path_to_output(g@, q) && q[0] == u);
}

/// Every node on a path to an output is marked when the marks hold every
/// output and are closed under predecessors.
proof fn lemma_path_marked(g: &ast::GraphDefinition, marked: Seq<bool>, p: Seq<usize>, i: int)
    requires
        g.in_range(),
        marked.len() == g.nodes,
        forall|o: int| 0 <= o < g.outputs@.len() ==> marked[#[trigger] g.outputs@[o] as int],
        forall|k: int|
            0 <= k < g.edges@.len() && marked[g.edges@[k].dst as int] ==> marked[#[trigger] g.edges@[
                k
            ].src as int],
        path_to_output(g@, p),
        0 <= i < p.len(),
    ensures
        marked[p[i] as int],
    decreases p.len() - i,
{
    lemma_graph_view(g);
    if i == p.len() - 1 {
        let o = choose|o: int| 0 <= o < g.outputs@.len() && g.outputs@[o] == p.last();
        assert(marked[g.outputs@[o] as int]);
    } else {
        lemma_path_marked(g, marked, p, i + 1);
        assert(has_edge(g@, p[i], p[i + 1]));
        let k = choose|k: int| 0 <= k < g.edges@.len() && g.edges@[k].src == p[i] && g.edges@[k].dst == p[i + 1];
        assert(marked[g.edges@[k].src as int]);
    }
}

fn contains_node(v: &Vec<usize>, x: usize) -> (r: bool)
    ensures
        r == v@.contains(x),
{
    let mut i: usize = 0;
    while i < v.len()
        invariant
            i <= v.len(),
            forall|j: int| 0 <= j < i ==> v@[j] != x,
        decreases v.len() - i,
    {
        if v[i] == x {
            return true;
        }
        i = i + 1;
    }
    false
}

fn falses(n: usize) -> (v: Vec<bool>)
    ensures
        v.len() == n,
        forall|i: int| 0 <= i < n ==> !v@[i],
{
    let mut v: Vec<bool> = Vec::new();
    while v.len() < n
        invariant
            v.len() <= n,
            forall|i: int| 0 <= i < v.len() ==> !v@[i],
        decreases n - v.len(),
    {
        v.push(false);
    }
    v
}

/// Marks exactly the live nodes.
fn mark_live(g: &ast::GraphDefinition) -> (marked: Vec<bool>)
    requires
        g.in_range(),
    ensures
        marked.len() == g.nodes,
        forall|v: int| 0 <= v < g.nodes ==> (marked@[v] <==> is_live(g@, v as usize)),
{
    proof { lemma_graph_view(g); }
    let n = g.nodes;
    let mut marked = falses(n);
    let mut o: usize = 0;
    while o < g.outputs.len()
        invariant
            o <= g.outputs.len(),
            g.in_range(),
            n == g.nodes,
            marked.len() == n,
            forall|v: int| 0 <= v < n && marked@[v] ==> is_live(g@, v as usize),
            forall|j: int| 0 <= j < o ==> marked@[#[trigger] g.outputs@[j] as int],
        decreases g.outputs.len() - o,
    {
        proof { lemma_graph_view(g); }
        proof {
            let p = seq![g.outputs@[o as int]];
            assert(g.outputs@.contains(p.last()));
            assert(path_to_output(g@, p));
        }
        assert(g.outputs@[o as int] < n);
        marked.set(g.outputs[o], true);
        o = o + 1;
    }
    let ghost mut unmarked: Set<int> = Set::new(|v: int| 0 <= v < n && !marked@[v]);
    proof {
        vstd::set_lib::lemma_int_range(0, n as int);
        vstd::set_lib::lemma_len_subset(unmarked, vstd::set_lib::set_int_range(0, n as int));
    }
    loop
        invariant
            g.in_range(),
            n == g.nodes,
            marked.len() == n,
            forall|v: int| 0 <= v < n && marked@[v] ==> is_live(g@, v as usize),
            forall|j: int| 0 <= j < g.outputs@.len() ==> marked@[#[trigger] g.outputs@[j] as int],
            unmarked.finite(),
            forall|v: int| unmarked.contains(v) <==> (0 <= v < n && !marked@[v]),
        ensures
            marked.len() == n,
            forall|v: int| 0 <= v < n && marked@[v] ==> is_live(g@, v as usize),
            forall|j: int| 0 <= j < g.outputs@.len() ==> marked@[#[trigger] g.outputs@[j] as int],
            forall|kk: int|
                0 <= kk < g.edges@.len() && marked@[g.edges@[kk].dst as int] ==> marked@[
                    #[trigger] g.edges@[kk].src as int],
        decreases unmarked.len(),
    {
        proof { lemma_graph_view(g); }
        let mut changed = false;
        let ghost start = unmarked;
        let mut k: usize = 0;
        while k < g.edges.len()
            invariant
                g.in_range(),
                n == g.nodes,
                marked.len() == n,
                k <= g.edges.len(),
                forall|v: int| 0 <= v < n && marked@[v] ==> is_live(g@, v as usize),
                forall|j: int| 0 <= j < g.outputs@.len() ==> marked@[#[trigger] g.outputs@[j] as int],
                unmarked.finite(),
                unmarked.subset_of(start),
                forall|v: int| unmarked.contains(v) <==> (0 <= v < n && !marked@[v]),
                changed ==> unmarked.len() < start.len(),
                !changed ==> unmarked == start,
                !changed ==> forall|kk: int|
                    0 <= kk < k && marked@[g.edges@[kk].dst as int] ==> marked@[
                        #[trigger] g.edges@[kk].src as int],
            decreases g.edges.len() - k,
        {
            proof { lemma_graph_view(g); }
            let e = g.edges[k];
            assert(e.src < n && e.dst < n);
            if marked[e.dst] && !marked[e.src] {
                proof {
                    lemma_extend_path(g, e.src, k as int);
                    vstd::set_lib::lemma_len_subset(unmarked.remove(e.src as int), unmarked);
                }
                marked.set(e.src, true);
                proof { unmarked = unmarked.remove(e.src as int); }
                changed = true;
            }
            k = k + 1;
        }
        if !changed {
            break;
        }
    }
    proof {
        assert forall|v: int| 0 <= v < n implies (marked@[v] <==> is_live(g@, v as usize)) by {
            if is_live(g@, v as usize) {
                let p = choose|p: Seq<usize>| path_to_output(g@, p) && p[0] == v as usize;
                lemma_path_marked(g, marked@, p, 0);
            }
        }
    }
    marked
}


/// `v` may be emitted next: it is live, not yet emitted, and every live edge
/// into it starts at a node already emitted.
pub open spec fn ready(g: ast::GraphTerm, live: Seq<bool>, done: Seq<bool>, v: int) -> bool {
    &&& 0 <= v < g.nodes
    &&& live[v]
    &&& !done[v]
    &&& forall|k: int|
        0 <= k < g.edges.len() && g.edges[k].dst == v && live[g.edges[k].src as int] ==> done[
            #[trigger] g.edges[k].src as int]
}

/// The smallest node that is ready to be taken, if any is.
#[verifier::opaque]
pub open spec fn smallest_ready(g: ast::GraphTerm, live: Seq<bool>, done: Seq<bool>) -> Option<int> {
    if exists|v: int| ready(g, live, done, v) {
        Some(choose|v: int| ready(g, live, done, v) && forall|w: int| 0 <= w < v ==> !ready(g, live, done, w))
    } else {
        None
    }
}

/// The nodes in the order the pass takes them, at most `steps` of them:
/// each time the smallest live node not yet taken whose live predecessors
/// have all been taken.
#[verifier::opaque]
pub open spec fn taken_order(g: ast::GraphTerm, live: Seq<bool>, done: Seq<bool>, steps: nat) -> Seq<usize>
    decreases steps,
{
    if steps == 0 {
        Seq::empty()
    } else {
        match smallest_ready(g, live, done) {
            None => Seq::empty(),
            Some(v) => seq![v as usize] + taken_order(g, live, done.update(v, true), (steps - 1) as nat),
        }
    }
}

/// The nodes of `s` that are not inputs, in order.
pub open spec fn non_inputs(g: ast::GraphTerm, s: Seq<usize>) -> Seq<usize>
    decreases s.len(),
{
    if s.len() == 0 {
        s
    } else if is_input(g, s.last()) {
        non_inputs(g, s.drop_last())
    } else {
        non_inputs(g, s.drop_last()).push(s.last())
    }
}

/// The schedule the pass emits: the live non-input nodes, smallest ready
/// node first.
pub open spec fn schedule_of(g: ast::GraphTerm) -> Seq<usize> {
    non_inputs(
        g,
        taken_order(g, Seq::new(g.nodes as nat, |v: int| is_live(g, v as usize)), Seq::new(g.nodes as nat, |v: int| false), g.nodes as nat),
    )
}

proof fn lemma_smallest_ready(g: ast::GraphTerm, live: Seq<bool>, done: Seq<bool>, v: int)
    requires
        ready(g, live, done, v),
        forall|w: int| 0 <= w < v ==> !ready(g, live, done, w),
    ensures
        smallest_ready(g, live, done) == Some(v),
{
    reveal(smallest_ready);
    let c = choose|c: int| ready(g, live, done, c) && forall|w: int| 0 <= w < c ==> !ready(g, live, done, w);
    if c < v {
        assert(!ready(g, live, done, c));
    }
    if v < c {
        assert(!ready(g, live, done, v));
    }
}

proof fn lemma_schedule_of(g: ast::GraphTerm, live: Seq<bool>, start: Seq<bool>, order: Seq<usize>)
    requires
        live.len() == g.nodes,
        forall|v: int| 0 <= v < g.nodes ==> (live[v] <==> is_live(g, v as usize)),
        start.len() == g.nodes,
        forall|v: int| 0 <= v < g.nodes ==> !start[v],
        order == taken_order(g, live, start, g.nodes as nat),
    ensures
        non_inputs(g, order) == schedule_of(g),
{
    assert(live =~= Seq::new(g.nodes as nat, |v: int| is_live(g, v as usize)));
    assert(start =~= Seq::new(g.nodes as nat, |v: int| false));
}

proof fn lemma_nothing_ready(g: ast::GraphTerm, live: Seq<bool>, done: Seq<bool>, steps: nat)
    requires
        forall|w: int| 0 <= w < g.nodes ==> !ready(g, live, done, w),
    ensures
        taken_order(g, live, done, steps) == Seq::<usize>::empty(),
{
    reveal(taken_order);
    reveal(smallest_ready);
}

proof fn lemma_take_step(
    g: ast::GraphTerm,
    live: Seq<bool>,
    done: Seq<bool>,
    steps: nat,
    v: int,
    order: Seq<usize>,
    full: Seq<usize>,
)
    requires
        smallest_ready(g, live, done) == Some(v),
        steps >= 1,
        order + taken_order(g, live, done, steps) == full,
    ensures
        order.push(v as usize) + taken_order(g, live, done.update(v, true), (steps - 1) as nat) == full,
{
    reveal(taken_order);
    let rest = taken_order(g, live, done.update(v, true), (steps - 1) as nat);
    assert(taken_order(g, live, done, steps) == seq![v as usize] + rest);
    assert(order.push(v as usize) + rest =~= order + (seq![v as usize] + rest));
}

proof fn lemma_non_inputs_push(g: ast::GraphTerm, order: Seq<usize>, v: usize)
    ensures
        non_inputs(g, order.push(v)) == if is_input(g, v) {
            non_inputs(g, order)
        } else {
            non_inputs(g, order).push(v)
        },
{
    assert(order.push(v).drop_last() =~= order);
}

fn predecessors_done(g: &ast::GraphDefinition, live: &Vec<bool>, done: &Vec<bool>, v: usize) -> (r: bool)
    requires
        g.in_range(),
        live.len() == g.nodes,
        done.len() == g.nodes,
    ensures
        r == forall|k: int|
            0 <= k < g.edges@.len() && g.edges@[k].dst == v && live@[g.edges@[k].src as int]
                ==> done@[#[trigger] g.edges@[k].src as int],
{
    proof { lemma_graph_view(g); }
    let mut k: usize = 0;
    while k < g.edges.len()
        invariant
            g.in_range(),
            live.len() == g.nodes,
            done.len() == g.nodes,
            k <= g.edges.len(),
            forall|kk: int|
                0 <= kk < k && g.edges@[kk].dst == v && live@[g.edges@[kk].src as int]
                    ==> done@[#[trigger] g.edges@[kk].src as int],
        decreases g.edges.len() - k,
    {
        proof { lemma_graph_view(g); }
        let e = g.edges[k];
        assert(e.src < g.nodes);
        if e.dst == v && live[e.src] && !done[e.src] {
            return false;
        }
        k = k + 1;
    }
    true
}

/// The smallest node that is ready, if any.
fn next_ready(g: &ast::GraphDefinition, live: &Vec<bool>, done: &Vec<bool>) -> (r: Option<usize>)
    requires
        g.in_range(),
        live.len() == g.nodes,
        done.len() == g.nodes,
    ensures
        r matches Some(v) ==> ready(g@, live@, done@, v as int) && forall|w: int|
            0 <= w < v ==> !ready(g@, live@, done@, w),
        r is None ==> forall|w: int| 0 <= w < g.nodes ==> !ready(g@, live@, done@, w),
{
    proof { lemma_graph_view(g); }
    let mut v: usize = 0;
    while v < g.nodes
        invariant
            g.in_range(),
            live.len() == g.nodes,
            done.len() == g.nodes,
            v <= g.nodes,
            forall|w: int| 0 <= w < v ==> !ready(g@, live@, done@, w),
        decreases g.nodes - v,
    {
        proof { lemma_graph_view(g); }
        if live[v] && !done[v] && predecessors_done(g, live, done, v) {
            return Some(v);
        }
        v = v + 1;
    }
    None
}

/// With no node ready, every node of a live order is already emitted.
proof fn lemma_order_done(
    g: &ast::GraphDefinition,
    live: Seq<bool>,
    done: Seq<bool>,
    ord: Seq<usize>,
    i: int,
)
    requires
        g.in_range(),
        live.len() == g.nodes,
        done.len() == g.nodes,
        forall|v: int| 0 <= v < g.nodes ==> (live[v] <==> is_live(g@, v as usize)),
        forall|w: int| 0 <= w < g.nodes ==> !ready(g@, live, done, w),
        is_live_order(g@, ord),
        0 <= i < ord.len(),
    ensures
        forall|j: int| 0 <= j <= i ==> done[#[trigger] ord[j] as int],
    decreases i,
{
    if i > 0 {
        lemma_order_done(g, live, done, ord, i - 1);
    }
    let x = ord[i];
    assert(ord.contains(x));
    lemma_live_in_range(g, x);
    if !done[x as int] {
        assert(!ready(g@, live, done, x as int));
        let k = choose|k: int|
            0 <= k < g.edges@.len() && g.edges@[k].dst == x && live[g.edges@[k].src as int]
                && !done[g.edges@[k].src as int];
        let u = g.edges@[k].src;
        assert(is_live(g@, u));
        let j = choose|j: int| 0 <= j < i && ord[j] == g.edges@[k].src;
        assert(done[ord[j] as int]);
    }
}

/// Whether position `w` of `marks` is set.
pub open spec fn marked_at(marks: Seq<bool>, w: usize) -> bool {
    w < marks.len() && marks[w as int]
}

/// The set of marked positions.
fn node_set(marks: &Vec<bool>) -> (s: BTreeSet<usize>)
    ensures
        forall|w: usize| s@.contains(w) <==> marked_at(marks@, w),
{
    broadcast use vstd::laws_cmp::group_laws_cmp;

    let mut s: BTreeSet<usize> = BTreeSet::new();
    let mut v: usize = 0;
    while v < marks.len()
        invariant
            v <= marks.len(),
            forall|w: usize| s@.contains(w) <==> (w < v && marked_at(marks@, w)),
        decreases marks.len() - v,
    {
        if marks[v] {
            s.insert(v);
        }
        v = v + 1;
    }
    s
}

/// Prunes, checks and schedules a static graph.
pub fn lower_graph(g: &ast::GraphDefinition) -> (r: Result<ir::GraphDefinition, CompileError>)
    requires
        first_edge_error(g.edges@, g.inputs@) is None ==> g.in_range(),
    ensures
        r is Ok <==> (!edge_into_input(g@) && !weight_out_of_range(g@) && live_acyclic(g@)),
        r matches Ok(out) ==> scheduled_from(out, g@),
        r matches Err(e) ==> e.0@ == graph_error(g@),
{
    proof { lemma_graph_view(g); }
    let n = g.nodes;
    let mut k: usize = 0;
    while k < g.edges.len()
        invariant
            k <= g.edges.len(),
            first_edge_error(g.edges@.take(k as int), g.inputs@) is None,
            forall|kk: int| 0 <= kk < k ==> !is_input(g@, #[trigger] g.edges@[kk].dst),
            forall|kk: int| 0 <= kk < k ==> I24_MIN <= #[trigger] g.edges@[kk].weight <= I24_MAX,
        decreases g.edges.len() - k,
    {
        proof {
            lemma_graph_view(g);
            assert(g.edges@.take(k + 1).drop_last() =~= g.edges@.take(k as int));
            assert(g.edges@.take(k + 1).last() == g.edges@[k as int]);
        }
        let e = g.edges[k];
        if contains_node(&g.inputs, e.dst) {
            let mut message = String::new();
            crate::text::push_str(&mut message, "graph input node ");
            crate::text::push_decimal(&mut message, e.dst as u64);
            crate::text::push_str(&mut message, " cannot have an incoming edge");
            proof {
                assert(is_input(g@, g.edges@[k as int].dst));
                lemma_first_edge_error_prefix(g.edges@, g.inputs@, k + 1);
                assert(message@ =~= input_edge_error(e.dst));
            }
            return Err(CompileError(message));
        }
        if e.weight < I24_MIN || e.weight > I24_MAX {
            let mut message = String::new();
            crate::text::push_str(&mut message, "graph edge weight `");
            crate::text::push_signed(&mut message, e.weight);
            crate::text::push_str(&mut message, "` is outside Bend's signed 24-bit range (-8388608..=8388607)");
            proof {
                assert(!(I24_MIN <= g.edges@[k as int].weight <= I24_MAX));
                lemma_first_edge_error_prefix(g.edges@, g.inputs@, k + 1);
                assert(message@ =~= weight_error(e.weight));
            }
            return Err(CompileError(message));
        }
        k = k + 1;
    }
    proof {
        assert(g.edges@.take(g.edges@.len() as int) =~= g.edges@);
        assert(g.in_range());
    }
    let live = mark_live(g);

    let mut done = falses(n);
    let mut schedule: Vec<usize> = Vec::new();
    let ghost mut order: Seq<usize> = Seq::empty();
    let ghost mut undone: Set<int> = Set::new(|v: int| 0 <= v < n && !done@[v]);
    let ghost start = done@;
    let ghost full = taken_order(g@, live@, start, n as nat);
    proof {
        vstd::set_lib::lemma_int_range(0, n as int);
        assert(undone =~= vstd::set_lib::set_int_range(0, n as int));
        assert(order + full =~= full);
    }
    loop
        invariant
            g.in_range(),
            n == g.nodes,
            !edge_into_input(g@),
            full == taken_order(g@, live@, start, n as nat),
            order + taken_order(g@, live@, done@, undone.len()) == full,
            schedule@ == non_inputs(g@, order),
            first_edge_error(g.edges@, g.inputs@) is None,
            live.len() == n,
            done.len() == n,
            forall|v: int| 0 <= v < n ==> (live@[v] <==> is_live(g@, v as usize)),
            forall|v: int| 0 <= v < n && done@[v] ==> live@[v],
            forall|v: usize| #![trigger order.contains(v)] order.contains(v) <==> (v < n && done@[v as int]),
            order.no_duplicates(),
            forall|i: int, kk: int|
                0 <= i < order.len() && 0 <= kk < g.edges@.len() && g.edges@[kk].dst
                    == #[trigger] order[i] && is_live(g@, #[trigger] g.edges@[kk].src) ==> exists|j: int|
                    0 <= j < i && order[j] == g.edges@[kk].src,
            schedule@.no_duplicates(),
            forall|v: usize| #![trigger schedule@.contains(v)]
                schedule@.contains(v) <==> (v < n && done@[v as int] && !is_input(g@, v)),
            forall|i: int, kk: int|
                0 <= i < schedule@.len() && 0 <= kk < g.edges@.len() && g.edges@[kk].dst
                    == #[trigger] schedule@[i] && is_live(g@, #[trigger] g.edges@[kk].src)
                    && !is_input(g@, g.edges@[kk].src) ==> exists|j: int|
                    0 <= j < i && schedule@[j] == g.edges@[kk].src,
            undone.finite(),
            forall|v: int| undone.contains(v) <==> (0 <= v < n && !done@[v]),
        ensures
            first_edge_error(g.edges@, g.inputs@) is None,
            order == full,
            schedule@ == non_inputs(g@, order),
            live.len() == n,
            done.len() == n,
            forall|w: int| 0 <= w < n ==> !ready(g@, live@, done@, w),
            forall|v: int| 0 <= v < n && done@[v] ==> live@[v],
            forall|v: usize| #![trigger order.contains(v)] order.contains(v) <==> (v < n && done@[v as int]),
            order.no_duplicates(),
            forall|i: int, kk: int|
                0 <= i < order.len() && 0 <= kk < g.edges@.len() && g.edges@[kk].dst
                    == #[trigger] order[i] && is_live(g@, #[trigger] g.edges@[kk].src) ==> exists|j: int|
                    0 <= j < i && order[j] == g.edges@[kk].src,
            schedule@.no_duplicates(),
            forall|v: usize| #![trigger schedule@.contains(v)]
                schedule@.contains(v) <==> (v < n && done@[v as int] && !is_input(g@, v)),
            forall|i: int, kk: int|
                0 <= i < schedule@.len() && 0 <= kk < g.edges@.len() && g.edges@[kk].dst
                    == #[trigger] schedule@[i] && is_live(g@, #[trigger] g.edges@[kk].src)
                    && !is_input(g@, g.edges@[kk].src) ==> exists|j: int|
                    0 <= j < i && schedule@[j] == g.edges@[kk].src,
        decreases undone.len(),
    {
        proof { lemma_graph_view(g); }
        match next_ready(g, &live, &done) {
            None => {
                proof {
                    lemma_nothing_ready(g@, live@, done@, undone.len());
                    assert(order + Seq::<usize>::empty() =~= order);
                }
                break;
            },
            Some(v) => {
                let ghost old_order = order;
                let ghost old_schedule = schedule@;
                let ghost old_done = done@;
                let ghost old_undone = undone;
                proof {
                    lemma_smallest_ready(g@, live@, done@, v as int);
                    assert(undone.contains(v as int));
                    vstd::set_lib::lemma_len_subset(undone.remove(v as int), undone);
                    undone = undone.remove(v as int);
                    order = order.push(v);
                }
                done.set(v, true);
                let input = contains_node(&g.inputs, v);
                if !input {
                    schedule.push(v);
                }
                proof {
                    assert(done@ == old_done.update(v as int, true));
                    lemma_take_step(g@, live@, old_done, old_undone.len(), v as int, old_order, full);
                    lemma_non_inputs_push(g@, old_order, v);
                    assert(is_input(g@, v) == input);
                    assert forall|x: usize| #![trigger order.contains(x)] order.contains(x) <==> (x < n && done@[x as int]) by {
                        if x == v {
                            assert(order[order.len() - 1] == x);
                        } else if old_order.contains(x) {
                            let j = choose|j: int| 0 <= j < old_order.len() && old_order[j] == x;
                            assert(order[j] == x);
                        } else if order.contains(x) {
                            let j = choose|j: int| 0 <= j < order.len() && order[j] == x;
                            if j < old_order.len() {
                                assert(old_order[j] == x);
                            }
                        }
                    }
                    assert(order.no_duplicates()) by {
                        assert forall|a: int, b: int| 0 <= a < order.len() && 0 <= b < order.len() && a != b
                            implies order[a] != order[b] by {
                            if a == old_order.len() as int && b < old_order.len() {
                                assert(old_order.contains(old_order[b]));
                            } else if b == old_order.len() as int && a < old_order.len() {
                                assert(old_order.contains(old_order[a]));
                            }
                        }
                    }
                    assert forall|i: int, kk: int|
                        0 <= i < order.len() && 0 <= kk < g.edges@.len() && g.edges@[kk].dst
                            == #[trigger] order[i] && is_live(g@, #[trigger] g.edges@[kk].src)
                        implies exists|j: int| 0 <= j < i && order[j] == g.edges@[kk].src by {
                        if i < old_order.len() {
                            let j = choose|j: int| 0 <= j < i && old_order[j] == g.edges@[kk].src;
                            assert(order[j] == g.edges@[kk].src);
                        } else {
                            let u = g.edges@[kk].src;
                            lemma_live_in_range(g, u);
                            assert(old_done[u as int]);
                            assert(old_order.contains(u));
                            let j = choose|j: int| 0 <= j < old_order.len() && old_order[j] == u;
                            assert(order[j] == u);
                        }
                    }
                    assert forall|x: usize| #![trigger schedule@.contains(x)]
                        schedule@.contains(x) <==> (x < n && done@[x as int] && !is_input(g@, x)) by {
                        assert(old_schedule.contains(x) <==> (x < n && old_done[x as int] && !is_input(g@, x)));
                        if input {
                            assert(schedule@ == old_schedule);
                        } else {
                            if x == v {
                                assert(schedule@[schedule@.len() - 1] == x);
                            } else if old_schedule.contains(x) {
                                let j = choose|j: int| 0 <= j < old_schedule.len() && old_schedule[j] == x;
                                assert(schedule@[j] == x);
                            } else if schedule@.contains(x) {
                                let j = choose|j: int| 0 <= j < schedule@.len() && schedule@[j] == x;
                                if j < old_schedule.len() {
                                    assert(old_schedule[j] == x);
                                }
                            }
                        }
                    }
                    assert(schedule@.no_duplicates()) by {
                        assert forall|a: int, b: int| 0 <= a < schedule@.len() && 0 <= b < schedule@.len() && a != b
                            implies schedule@[a] != schedule@[b] by {
                            if !input {
                                if a == old_schedule.len() as int && b < old_schedule.len() {
                                    assert(old_schedule.contains(old_schedule[b]));
                                } else if b == old_schedule.len() as int && a < old_schedule.len() {
                                    assert(old_schedule.contains(old_schedule[a]));
                                }
                            }
                        }
                    }
                    assert forall|i: int, kk: int|
                        0 <= i < schedule@.len() && 0 <= kk < g.edges@.len() && g.edges@[kk].dst
                            == #[trigger] schedule@[i] && is_live(g@, #[trigger] g.edges@[kk].src)
                            && !is_input(g@, g.edges@[kk].src)
                        implies exists|j: int| 0 <= j < i && schedule@[j] == g.edges@[kk].src by {
                        if i < old_schedule.len() {
                            let j = choose|j: int| 0 <= j < i && old_schedule[j] == g.edges@[kk].src;
                            assert(schedule@[j] == g.edges@[kk].src);
                        } else {
                            let u = g.edges@[kk].src;
                            lemma_live_in_range(g, u);
                            assert(old_done[u as int]);
                            assert(old_schedule.contains(u));
                            let j = choose|j: int| 0 <= j < old_schedule.len() && old_schedule[j] == u;
                            assert(schedule@[j] == u);
                        }
                    }
                }
            },
        }
    }
    let mut v: usize = 0;
    while v < n
        invariant
            v <= n,
            n == g.nodes,
            g.in_range(),
            first_edge_error(g.edges@, g.inputs@) is None,
            live.len() == n,
            done.len() == n,
            forall|w: int| 0 <= w < n ==> (live@[w] <==> is_live(g@, w as usize)),
            forall|w: int| 0 <= w < n ==> !ready(g@, live@, done@, w),
            forall|w: int| 0 <= w < v && live@[w] && !done@[w] ==> is_input(g@, w as usize),
        decreases n - v,
    {
        proof { lemma_graph_view(g); }
        if live[v] && !done[v] && !contains_node(&g.inputs, v) {
            proof {
                if live_acyclic(g@) {
                    let ord = choose|ord: Seq<usize>| is_live_order(g@, ord);
                    assert(ord.contains(v));
                    let j = choose|j: int| 0 <= j < ord.len() && ord[j] == v;
                    lemma_order_done(g, live@, done@, ord, j);
                }
            }
            return Err(error("static graph contains a cycle on a live path; cyclic graphs are not supported yet"));
        }
        v = v + 1;
    }
    proof {
        assert forall|w: int| 0 <= w < n && live@[w] implies done@[w] by {
            if !done@[w] {
                assert(is_input(g@, w as usize));
                assert(!ready(g@, live@, done@, w));
            }
        }
        assert forall|x: usize| is_live(g@, x) <==> order.contains(x) by {
            if is_live(g@, x) {
                lemma_live_in_range(g, x);
            }
        }
        assert(is_live_order(g@, order));
        lemma_schedule_of(g@, live@, start, order);
    }

    let live_nodes = node_set(&live);
    proof {
        assert forall|w: usize| live_nodes@.contains(w) <==> is_live(g@, w) by {
            if is_live(g@, w) {
                lemma_live_in_range(g, w);
            }
        }
    }

    let mut edges: Vec<ir::GraphEdge> = Vec::new();
    let mut k: usize = 0;
    while k < g.edges.len()
        invariant
            k <= g.edges.len(),
            n == g.nodes,
            g.in_range(),
            live.len() == n,
            forall|w: int| 0 <= w < n ==> (live@[w] <==> is_live(g@, w as usize)),
            edges@ == live_edges(g@, k as int),
        decreases g.edges.len() - k,
    {
        proof { lemma_graph_view(g); }
        let e = g.edges[k];
        if live[e.src] && live[e.dst] {
            edges.push(ir::GraphEdge { src: e.src, dst: e.dst, weight: e.weight });
        }
        k = k + 1;
    }
    Ok(
        ir::GraphDefinition {
            name: g.name.clone(),
            nodes: n,
            inputs: g.inputs.clone(),
            outputs: g.outputs.clone(),
            edges,
            live_nodes,
            schedule,
        },
    )
}

}
