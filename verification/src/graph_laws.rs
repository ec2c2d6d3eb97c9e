//! What is read of a graph after it was written to.
use vstd::prelude::*;

use crate::model::{EdgeView, GraphView, NodeView};

verus! {

proof fn lemma_node_from(g: GraphView, u: Seq<char>, from: int)
    requires
        0 <= from,
    ensures
        match g.node_from(u, from) {
            Some(x) => x.uid == u && exists|i: int|
                from <= i < g.nodes.len() && #[trigger] g.nodes[i] == x && forall|k: int|
                    from <= k < i ==> (#[trigger] g.nodes[k]).uid != u,
            None => forall|i: int| from <= i < g.nodes.len() ==> (#[trigger] g.nodes[i]).uid != u,
        },
    decreases g.nodes.len() - from,
{
    if from < g.nodes.len() {
        if g.nodes[from].uid == u {
            assert(g.nodes[from] == g.nodes[from]);
        } else {
            lemma_node_from(g, u, from + 1);
            if let Some(x) = g.node_from(u, from) {
                let i = choose|i: int|
                    from + 1 <= i < g.nodes.len() && #[trigger] g.nodes[i] == x && forall|k: int|
                        from + 1 <= k < i ==> (#[trigger] g.nodes[k]).uid != u;
                assert(g.nodes[i] == x);
            }
        }
    }
}

proof fn lemma_node_kept(g: GraphView, n: NodeView, u: Seq<char>, from: int)
    requires
        0 <= from,
        u != n.uid,
    ensures
        g.with_node(n).node_from(u, from) == g.node_from(u, from),
    decreases g.nodes.len() + 1 - from,
{
    let h = g.with_node(n);
    if from < h.nodes.len() {
        lemma_node_kept(g, n, u, from + 1);
        if from < g.nodes.len() {
            assert(h.nodes[from] == g.nodes[from] || (h.nodes[from] == n && g.nodes[from].uid == n.uid));
        } else {
            assert(h.nodes[from] == n);
        }
    }
}

/// A node that was added is read back as it was written, whatever stood in its place before, and every
/// other node is read as before. A node is read exactly where there is one of its identifier, and it is
/// the first of that identifier.
pub proof fn law_node_read_back(g: GraphView, n: NodeView, u: Seq<char>)
    ensures
        g.with_node(n).node(n.uid) == Some(n),
        u != n.uid ==> g.with_node(n).node(u) == g.node(u),
        g.node(u) is Some <==> g.has(u),
        g.node(u) matches Some(x) ==> x.uid == u && g.nodes.contains(x),
{
    let h = g.with_node(n);
    lemma_node_from(h, n.uid, 0);
    lemma_node_from(g, u, 0);
    if u != n.uid {
        lemma_node_kept(g, n, u, 0);
    }
    match h.node(n.uid) {
        Some(x) => {
            let i = choose|i: int|
                0 <= i < h.nodes.len() && #[trigger] h.nodes[i] == x && forall|k: int|
                    0 <= k < i ==> (#[trigger] h.nodes[k]).uid != n.uid;
            if !g.has(n.uid) && i < g.nodes.len() {
                assert(g.nodes[i].uid == n.uid);
            }
            assert(x == n);
        },
        None => {
            if g.has(n.uid) {
                let i = choose|i: int| 0 <= i < g.nodes.len() && (#[trigger] g.nodes[i]).uid == n.uid;
                assert(h.nodes[i].uid == n.uid);
            } else {
                assert(h.nodes[g.nodes.len() as int].uid == n.uid);
            }
        },
    }
}

/// An edge that was added is the last of the edges, those before it stay, and so do the nodes.
pub proof fn law_edge_added(g: GraphView, e: EdgeView)
    ensures
        g.with_edge(e).edges.len() == g.edges.len() + 1,
        g.with_edge(e).edges.last() == e,
        g.with_edge(e).edges.drop_last() == g.edges,
        g.with_edge(e).nodes == g.nodes,
{
    assert(g.with_edge(e).edges.drop_last() =~= g.edges);
}

} // verus!
