//! What a graph gains step by step: the edges that a series of steps adds, and how many of each kind.
use vstd::prelude::*;

use crate::model;
use crate::model::{EdgeKind, EdgeView, GraphView, NodeView};

verus! {

/// Whether `h` is `g` with the edges of `p`, and no others, added.
pub open spec fn adds(g: GraphView, h: GraphView, p: spec_fn(EdgeView) -> bool) -> bool {
    &&& h.nodes == g.nodes
    &&& forall|e: EdgeView| #[trigger] h.edges.contains(e) == (g.edges.contains(e) || p(e))
}

/// Whether one of the first `n` steps gives an edge.
pub open spec fn given(gives: spec_fn(int, EdgeView) -> bool, n: int, e: EdgeView) -> bool {
    exists|k: int| 0 <= k < n && #[trigger] gives(k, e)
}

/// Whether `h` is `g` with the edges of the first `n` steps, and no others, added.
pub open spec fn adds_upto(g: GraphView, h: GraphView, gives: spec_fn(int, EdgeView) -> bool, n: int) -> bool {
    &&& h.nodes == g.nodes
    &&& forall|e: EdgeView| #[trigger] h.edges.contains(e) == (g.edges.contains(e) || given(gives, n, e))
}

/// A graph with an edge has the same nodes and that edge more.
pub proof fn lemma_adds_one(g: GraphView, x: EdgeView, p: spec_fn(EdgeView) -> bool)
    requires
        forall|e: EdgeView| #[trigger] p(e) == (e == x),
    ensures
        adds(g, g.with_edge(x), p),
{
    assert forall|e: EdgeView| #[trigger] g.with_edge(x).edges.contains(e) == (g.edges.contains(e) || p(e)) by {
        model::lemma_pushed(g.edges, x, e);
    }
}

/// Nothing is added before the first step.
pub proof fn lemma_adds_none(g: GraphView, gives: spec_fn(int, EdgeView) -> bool)
    ensures
        adds_upto(g, g, gives, 0),
{
}

/// What `n` steps add, and what the next one does, is what `n + 1` steps add.
pub proof fn lemma_adds_next(
    g: GraphView,
    b: GraphView,
    h: GraphView,
    gives: spec_fn(int, EdgeView) -> bool,
    p: spec_fn(EdgeView) -> bool,
    n: int,
)
    requires
        0 <= n,
        adds_upto(g, b, gives, n),
        adds(b, h, p),
        forall|e: EdgeView| #[trigger] p(e) == gives(n, e),
    ensures
        adds_upto(g, h, gives, n + 1),
{
    assert forall|e: EdgeView| #[trigger] h.edges.contains(e) == (g.edges.contains(e) || given(gives, n + 1, e)) by {
        assert(h.edges.contains(e) == (b.edges.contains(e) || p(e)));
        assert(b.edges.contains(e) == (g.edges.contains(e) || given(gives, n, e)));
        assert(p(e) == gives(n, e));
        if given(gives, n + 1, e) {
            let k = choose|k: int| 0 <= k < n + 1 && #[trigger] gives(k, e);
            assert(k < n || k == n);
        }
    }
}

/// The number of edges of a kind.
pub open spec fn kind_count(edges: Seq<EdgeView>, kind: EdgeKind) -> nat
    decreases edges.len(),
{
    if edges.len() == 0 {
        0
    } else {
        kind_count(edges.drop_last(), kind) + if edges.last().kind == kind {
            1nat
        } else {
            0
        }
    }
}

/// An edge more is one more of its kind.
pub proof fn lemma_kind_count(edges: Seq<EdgeView>, x: EdgeView, kind: EdgeKind)
    ensures
        kind_count(edges.push(x), kind) == kind_count(edges, kind) + if x.kind == kind {
            1nat
        } else {
            0
        },
{
    assert(edges.push(x).drop_last() =~= edges);
}

/// Whether every node of `h` was one of `g` or is one of `p`, and every identifier of `g` is one of `h`.
pub open spec fn nodes_from(g: GraphView, h: GraphView, p: spec_fn(NodeView) -> bool) -> bool {
    &&& h.edges == g.edges
    &&& forall|x: NodeView| #[trigger] h.nodes.contains(x) ==> g.nodes.contains(x) || p(x)
    &&& forall|x: NodeView| #[trigger]
        g.nodes.contains(x) ==> h.nodes.contains(x) || exists|y: NodeView| #[trigger] p(y) && y.uid == x.uid
    &&& forall|u: Seq<char>| #[trigger]
        h.has(u) == (g.has(u) || exists|y: NodeView| #[trigger] p(y) && y.uid == u)
}

/// A graph with a node.
pub proof fn lemma_nodes_one(g: GraphView, n: NodeView, p: spec_fn(NodeView) -> bool)
    requires
        forall|x: NodeView| #[trigger] p(x) == (x == n),
    ensures
        nodes_from(g, g.with_node(n), p),
{
    model::law_with_node(g, n);
    model::lemma_noded(g, n);
    let h = g.with_node(n);
    assert(p(n));
    assert forall|u: Seq<char>| #[trigger] h.has(u) == (g.has(u) || exists|y: NodeView| #[trigger] p(y) && y.uid == u) by {
        assert(h.has(u) == (g.has(u) || u == n.uid));
    }
}

/// A graph with nothing more.
pub proof fn lemma_nodes_none(g: GraphView, p: spec_fn(NodeView) -> bool)
    requires
        forall|x: NodeView| !#[trigger] p(x),
    ensures
        nodes_from(g, g, p),
{
}

/// The nodes of one step after another.
pub proof fn lemma_nodes_more(
    g: GraphView,
    b: GraphView,
    h: GraphView,
    p: spec_fn(NodeView) -> bool,
    q: spec_fn(NodeView) -> bool,
    r: spec_fn(NodeView) -> bool,
)
    requires
        nodes_from(g, b, p),
        nodes_from(b, h, q),
        forall|x: NodeView| #[trigger] r(x) == (p(x) || q(x)),
    ensures
        nodes_from(g, h, r),
{
    assert forall|x: NodeView| #[trigger] h.nodes.contains(x) implies g.nodes.contains(x) || r(x) by {
        if b.nodes.contains(x) {
        }
    }
    assert forall|x: NodeView| #[trigger] g.nodes.contains(x) implies h.nodes.contains(x) || exists|y: NodeView| #[trigger]
        r(y) && y.uid == x.uid by {
        if b.nodes.contains(x) {
            if !h.nodes.contains(x) {
                let y = choose|y: NodeView| #[trigger] q(y) && y.uid == x.uid;
                assert(r(y));
            }
        } else {
            let y = choose|y: NodeView| #[trigger] p(y) && y.uid == x.uid;
            assert(r(y));
        }
    }
    assert forall|u: Seq<char>| #[trigger] h.has(u) == (g.has(u) || exists|y: NodeView| #[trigger] r(y) && y.uid == u) by {
        assert(h.has(u) == (b.has(u) || exists|y: NodeView| #[trigger] q(y) && y.uid == u));
        assert(b.has(u) == (g.has(u) || exists|y: NodeView| #[trigger] p(y) && y.uid == u));
        if h.has(u) && !g.has(u) {
            if b.has(u) {
                let y = choose|y: NodeView| #[trigger] p(y) && y.uid == u;
                assert(r(y));
            } else {
                let y = choose|y: NodeView| #[trigger] q(y) && y.uid == u;
                assert(r(y));
            }
        }
        if exists|y: NodeView| #[trigger] r(y) && y.uid == u {
            let y = choose|y: NodeView| #[trigger] r(y) && y.uid == u;
            assert(p(y) || q(y));
        }
    }
}

/// Whether `h` is `g` with the nodes of `p` and the edges of `q`, and no others, added.
pub open spec fn builds(
    g: GraphView,
    h: GraphView,
    p: spec_fn(NodeView) -> bool,
    q: spec_fn(EdgeView) -> bool,
) -> bool {
    &&& nodes_from(g, GraphView { nodes: h.nodes, edges: g.edges }, p)
    &&& forall|e: EdgeView| #[trigger] h.edges.contains(e) == (g.edges.contains(e) || q(e))
}

/// A graph with a node and an edge.
pub proof fn lemma_builds_one(
    g: GraphView,
    n: NodeView,
    x: EdgeView,
    p: spec_fn(NodeView) -> bool,
    q: spec_fn(EdgeView) -> bool,
)
    requires
        forall|y: NodeView| #[trigger] p(y) == (y == n),
        forall|e: EdgeView| #[trigger] q(e) == (e == x),
    ensures
        builds(g, g.with_node(n).with_edge(x), p, q),
{
    let b = g.with_node(n);
    let h = b.with_edge(x);
    lemma_nodes_one(g, n, p);
    assert(GraphView { nodes: h.nodes, edges: g.edges } == b);
    assert forall|e: EdgeView| #[trigger] h.edges.contains(e) == (g.edges.contains(e) || q(e)) by {
        model::lemma_pushed(b.edges, x, e);
    }
}

/// A graph with a node.
pub proof fn lemma_builds_node(g: GraphView, n: NodeView, p: spec_fn(NodeView) -> bool, q: spec_fn(EdgeView) -> bool)
    requires
        forall|y: NodeView| #[trigger] p(y) == (y == n),
        forall|e: EdgeView| !#[trigger] q(e),
    ensures
        builds(g, g.with_node(n), p, q),
{
    lemma_nodes_one(g, n, p);
    let h = g.with_node(n);
    assert(GraphView { nodes: h.nodes, edges: g.edges } == h);
}

/// A graph with nothing more.
pub proof fn lemma_builds_none(g: GraphView, p: spec_fn(NodeView) -> bool, q: spec_fn(EdgeView) -> bool)
    requires
        forall|y: NodeView| !#[trigger] p(y),
        forall|e: EdgeView| !#[trigger] q(e),
    ensures
        builds(g, g, p, q),
{
    lemma_nodes_none(g, p);
    assert(GraphView { nodes: g.nodes, edges: g.edges } == g);
}

/// What one step builds after another.
pub proof fn lemma_builds_more(
    g: GraphView,
    b: GraphView,
    h: GraphView,
    p: spec_fn(NodeView) -> bool,
    q: spec_fn(EdgeView) -> bool,
    p2: spec_fn(NodeView) -> bool,
    q2: spec_fn(EdgeView) -> bool,
    p3: spec_fn(NodeView) -> bool,
    q3: spec_fn(EdgeView) -> bool,
)
    requires
        builds(g, b, p, q),
        builds(b, h, p2, q2),
        forall|x: NodeView| #[trigger] p3(x) == (p(x) || p2(x)),
        forall|e: EdgeView| #[trigger] q3(e) == (q(e) || q2(e)),
    ensures
        builds(g, h, p3, q3),
{
    let b2 = GraphView { nodes: b.nodes, edges: g.edges };
    let h1 = GraphView { nodes: h.nodes, edges: b.edges };
    let h2 = GraphView { nodes: h.nodes, edges: g.edges };
    assert(nodes_from(b2, h2, p2)) by {
        assert forall|u: Seq<char>| #[trigger] h2.has(u) == (b2.has(u) || exists|y: NodeView| #[trigger]
            p2(y) && y.uid == u) by {
            assert(h1.has(u) == (b.has(u) || exists|y: NodeView| #[trigger] p2(y) && y.uid == u));
            assert(h1.has(u) == h2.has(u) && b.has(u) == b2.has(u));
        }
    }
    lemma_nodes_more(g, b2, h2, p, p2, p3);
    assert forall|e: EdgeView| #[trigger] h.edges.contains(e) == (g.edges.contains(e) || q3(e)) by {
        assert(b.edges.contains(e) == (g.edges.contains(e) || q(e)));
    }
}

} // verus!
