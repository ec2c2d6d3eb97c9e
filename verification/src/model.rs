//! The graph model: identifiers, nodes, edges and the insertion-ordered graph.
//!
//! The executable types hold `String`s. Their views ([`NodeView`], [`EdgeView`], [`GraphView`])
//! hold sequences of characters; contracts speak of the views.
use vstd::prelude::*;

use crate::text;

verus! {

/// What a node stands for.
#[derive(Clone, Copy, Debug, PartialEq, Eq, Structural)]
pub enum NodeKind {
    Repo,
    Package,
    File,
    Module,
    Class,
    Interface,
    Function,
    Method,
    ApiOperation,
    GraphqlField,
    LambdaFn,
    IamRole,
    AppSyncApi,
    AppSyncResolver,
    AppSyncDataSource,
    CloudResource,
    CloudAction,
    Table,
    Column,
    Doc,
    DocSection,
}

/// What an edge says of its two nodes.
#[derive(Clone, Copy, Debug, PartialEq, Eq, Structural)]
pub enum EdgeKind {
    Calls,
    Imports,
    MemberOf,
    Defines,
    Produces,
    Consumes,
    Assumes,
    Routes,
    Runs,
    Contains,
    Grants,
    RequiresPermission,
    HasColumn,
    ForeignKey,
    Reads,
    Writes,
    MapsTo,
    Mentions,
    Documents,
}

/// How a node or an edge was learned.
#[derive(Clone, Copy, Debug, PartialEq, Eq, Structural)]
pub enum Provenance {
    Resolved,
    Observed,
    Extracted,
    Inferred,
    Ambiguous,
    Model,
}

/// The direction of a neighbour query.
#[derive(Clone, Copy, Debug, PartialEq, Eq, Structural)]
pub enum Direction {
    Outgoing,
    Incoming,
}

/// Certainty: the confidence of a fact.
pub const CERTAIN: u32 = 1_000_000_000;

/// A confidence between 0 and 1, counted in billionths.
#[derive(Clone, Copy, Debug, PartialEq, Eq, Structural)]
pub struct Confidence {
    pub billionths: u32,
}

impl Confidence {
    /// The confidence of `billionths` billionths, at most certainty.
    pub fn new(billionths: u32) -> (r: Confidence)
        ensures
            r.billionths == clamp_confidence(billionths),
    {
        if billionths > CERTAIN {
            Confidence { billionths: CERTAIN }
        } else {
            Confidence { billionths }
        }
    }
}

/// A number of billionths, at most certainty.
pub open spec fn clamp_confidence(billionths: u32) -> u32 {
    if billionths > CERTAIN {
        CERTAIN
    } else {
        billionths
    }
}

/// A count as a machine number: the largest one where the count does not fit.
pub open spec fn cap(n: nat) -> usize {
    if n > usize::MAX {
        usize::MAX
    } else {
        n as usize
    }
}

/// One more, up to the largest number.
pub fn bump(n: usize) -> (r: usize)
    ensures
        r == (if n == usize::MAX { n } else { (n + 1) as usize }),
{
    n.saturating_add(1)
}

/// The sum, up to the largest number.
pub fn plus(a: usize, b: usize) -> (r: usize)
    ensures
        r == (if a + b > usize::MAX { usize::MAX } else { (a + b) as usize }),
{
    a.saturating_add(b)
}

/// A stretch of source text: lines from 1, columns in bytes from 0.
#[derive(Clone, Copy, Debug, PartialEq, Eq, Structural)]
pub struct Span {
    pub start_line: u32,
    pub start_col: u32,
    pub end_line: u32,
    pub end_col: u32,
}

/// The span of a thing that has no place in a source text.
pub open spec fn no_span() -> Span {
    Span { start_line: 0, start_col: 0, end_line: 0, end_col: 0 }
}

impl Default for Span {
    fn default() -> (r: Span)
        ensures
            r == no_span(),
    {
        Span { start_line: 0, start_col: 0, end_line: 0, end_col: 0 }
    }
}

// ----------------------------------------------------------------------------------------------
// Identifiers
// ----------------------------------------------------------------------------------------------

/// The identifier of a node: `lang|package|path|fqn|signature`.
#[derive(Debug, PartialEq, Eq, Hash, PartialOrd, Ord)]
pub struct Uid(pub String);

impl View for Uid {
    type V = Seq<char>;

    open spec fn view(&self) -> Seq<char> {
        self.0@
    }
}

impl Clone for Uid {
    fn clone(&self) -> (r: Uid)
        ensures
            r == *self,
    {
        Uid(self.0.clone())
    }
}

/// The text of an identifier.
pub open spec fn uid_text(
    lang: Seq<char>,
    package: Seq<char>,
    path: Seq<char>,
    fqn: Seq<char>,
    signature: Seq<char>,
) -> Seq<char> {
    lang.push('|') + package.push('|') + path.push('|') + fqn.push('|') + signature
}

impl Uid {
    /// The identifier made of its five parts.
    pub fn new(lang: &str, package: &str, path: &str, fqn: &str, signature: &str) -> (r: Uid)
        ensures
            r@ == uid_text(lang@, package@, path@, fqn@, signature@),
    {
        let mut s = lang.to_owned();
        s.push('|');
        s.append(package);
        s.push('|');
        s.append(path);
        s.push('|');
        s.append(fqn);
        s.push('|');
        s.append(signature);
        assert(s@ =~= uid_text(lang@, package@, path@, fqn@, signature@));
        Uid(s)
    }

    /// The text of the identifier.
    pub fn as_str(&self) -> (r: &str)
        ensures
            r@ == self@,
    {
        self.0.as_str()
    }

    /// Whether two identifiers are the same.
    pub fn same(&self, other: &Uid) -> (r: bool)
        ensures
            r == (self@ == other@),
    {
        text::same(self.0.as_str(), other.0.as_str())
    }
}

/// The views of a sequence of identifiers.
pub open spec fn uid_views(v: Seq<Uid>) -> Seq<Seq<char>> {
    Seq::new(v.len(), |i: int| v[i]@)
}

// ----------------------------------------------------------------------------------------------
// Nodes and edges
// ----------------------------------------------------------------------------------------------

/// A node of the graph.
#[derive(Debug, PartialEq, Eq)]
pub struct Node {
    pub uid: Uid,
    pub kind: NodeKind,
    pub name: String,
    pub fqn: String,
    pub path: String,
    pub span: Span,
    pub provenance: Provenance,
    pub confidence: Confidence,
}

/// The value of a node.
#[verifier::ext_equal]
pub struct NodeView {
    pub uid: Seq<char>,
    pub kind: NodeKind,
    pub name: Seq<char>,
    pub fqn: Seq<char>,
    pub path: Seq<char>,
    pub span: Span,
    pub provenance: Provenance,
    pub confidence: u32,
}

impl View for Node {
    type V = NodeView;

    open spec fn view(&self) -> NodeView {
        NodeView {
            uid: self.uid@,
            kind: self.kind,
            name: self.name@,
            fqn: self.fqn@,
            path: self.path@,
            span: self.span,
            provenance: self.provenance,
            confidence: self.confidence.billionths,
        }
    }
}

impl Clone for Node {
    fn clone(&self) -> (r: Node)
        ensures
            r == *self,
    {
        Node {
            uid: self.uid.clone(),
            kind: self.kind,
            name: self.name.clone(),
            fqn: self.fqn.clone(),
            path: self.path.clone(),
            span: self.span,
            provenance: self.provenance,
            confidence: self.confidence,
        }
    }
}

/// An edge of the graph.
#[derive(Debug, PartialEq, Eq)]
pub struct Edge {
    pub src: Uid,
    pub dst: Uid,
    pub kind: EdgeKind,
    pub provenance: Provenance,
    pub confidence: Confidence,
}

/// The value of an edge.
#[verifier::ext_equal]
pub struct EdgeView {
    pub src: Seq<char>,
    pub dst: Seq<char>,
    pub kind: EdgeKind,
    pub provenance: Provenance,
    pub confidence: u32,
}

impl View for Edge {
    type V = EdgeView;

    open spec fn view(&self) -> EdgeView {
        EdgeView {
            src: self.src@,
            dst: self.dst@,
            kind: self.kind,
            provenance: self.provenance,
            confidence: self.confidence.billionths,
        }
    }
}

impl Clone for Edge {
    fn clone(&self) -> (r: Edge)
        ensures
            r == *self,
    {
        Edge {
            src: self.src.clone(),
            dst: self.dst.clone(),
            kind: self.kind,
            provenance: self.provenance,
            confidence: self.confidence,
        }
    }
}

impl Edge {
    /// The edge of its parts.
    pub fn make(src: &Uid, dst: &Uid, kind: EdgeKind, provenance: Provenance, billionths: u32) -> (r: Edge)
        ensures
            r@ == edge_of(src@, dst@, kind, provenance, billionths),
    {
        Edge {
            src: src.clone(),
            dst: dst.clone(),
            kind,
            provenance,
            confidence: Confidence::new(billionths),
        }
    }

    /// Whether two edges are the same.
    pub fn same(&self, other: &Edge) -> (r: bool)
        ensures
            r == (self@ == other@),
    {
        self.kind == other.kind && self.provenance == other.provenance && self.confidence.billionths
            == other.confidence.billionths && self.src.same(&other.src) && self.dst.same(&other.dst)
    }
}

/// The edge of its parts.
pub open spec fn edge_of(
    src: Seq<char>,
    dst: Seq<char>,
    kind: EdgeKind,
    provenance: Provenance,
    billionths: u32,
) -> EdgeView {
    EdgeView { src, dst, kind, provenance, confidence: clamp_confidence(billionths) }
}

/// A node that was read off a source: certain.
pub open spec fn fact_node(
    uid: Seq<char>,
    kind: NodeKind,
    name: Seq<char>,
    fqn: Seq<char>,
    path: Seq<char>,
    span: Span,
) -> NodeView {
    NodeView {
        uid,
        kind,
        name,
        fqn,
        path,
        span,
        provenance: Provenance::Extracted,
        confidence: CERTAIN,
    }
}

/// A node that was read off a source: certain.
pub fn extracted_node(uid: Uid, kind: NodeKind, name: &str, fqn: &str, path: &str, span: Span) -> (r: Node)
    ensures
        r@ == fact_node(uid@, kind, name@, fqn@, path@, span),
{
    Node {
        uid,
        kind,
        name: name.to_owned(),
        fqn: fqn.to_owned(),
        path: path.to_owned(),
        span,
        provenance: Provenance::Extracted,
        confidence: Confidence::new(CERTAIN),
    }
}

// ----------------------------------------------------------------------------------------------
// The graph
// ----------------------------------------------------------------------------------------------

/// A graph: its nodes and edges in the order in which they were added.
#[derive(Debug, PartialEq, Eq)]
pub struct Graph {
    pub nodes: Vec<Node>,
    pub edges: Vec<Edge>,
}

/// The value of a graph.
#[verifier::ext_equal]
pub struct GraphView {
    pub nodes: Seq<NodeView>,
    pub edges: Seq<EdgeView>,
}

impl View for Graph {
    type V = GraphView;

    open spec fn view(&self) -> GraphView {
        GraphView { nodes: node_views(self.nodes@), edges: edge_views(self.edges@) }
    }
}

/// The views of a sequence of nodes.
pub open spec fn node_views(v: Seq<Node>) -> Seq<NodeView> {
    Seq::new(v.len(), |i: int| v[i]@)
}

/// The views of a sequence of edges.
pub open spec fn edge_views(v: Seq<Edge>) -> Seq<EdgeView> {
    Seq::new(v.len(), |i: int| v[i]@)
}

impl GraphView {
    /// The graph without nodes and edges.
    pub open spec fn empty() -> GraphView {
        GraphView { nodes: Seq::empty(), edges: Seq::empty() }
    }

    /// Whether a node with this identifier is in the graph.
    pub open spec fn has(self, uid: Seq<char>) -> bool {
        exists|i: int| 0 <= i < self.nodes.len() && (#[trigger] self.nodes[i]).uid == uid
    }

    /// The first node with this identifier.
    pub open spec fn node_from(self, uid: Seq<char>, from: int) -> Option<NodeView>
        decreases self.nodes.len() - from,
    {
        if from >= self.nodes.len() {
            None
        } else if self.nodes[from].uid == uid {
            Some(self.nodes[from])
        } else {
            self.node_from(uid, from + 1)
        }
    }

    /// The node with this identifier.
    pub open spec fn node(self, uid: Seq<char>) -> Option<NodeView> {
        self.node_from(uid, 0)
    }

    /// The graph with `n` added: in place of the node of the same identifier, else at the end.
    pub open spec fn with_node(self, n: NodeView) -> GraphView {
        if self.has(n.uid) {
            GraphView {
                nodes: Seq::new(
                    self.nodes.len(),
                    |i: int| if self.nodes[i].uid == n.uid { n } else { self.nodes[i] },
                ),
                edges: self.edges,
            }
        } else {
            GraphView { nodes: self.nodes.push(n), edges: self.edges }
        }
    }

    /// The graph with `e` added at the end of its edges.
    pub open spec fn with_edge(self, e: EdgeView) -> GraphView {
        GraphView { nodes: self.nodes, edges: self.edges.push(e) }
    }

    /// Whether `e` is among the first `known` edges.
    pub open spec fn knows(self, known: nat, e: EdgeView) -> bool {
        exists|i: int| 0 <= i < known && i < self.edges.len() && self.edges[i] == e
    }

    /// The graph with `e` among its edges: added at the end, unless it is among the first `known`.
    pub open spec fn with_new_edge(self, known: nat, e: EdgeView) -> GraphView {
        if self.knows(known, e) {
            self
        } else {
            self.with_edge(e)
        }
    }

    /// No two nodes share an identifier.
    pub open spec fn wf(self) -> bool {
        forall|i: int, j: int|
            0 <= i < j < self.nodes.len() ==> (#[trigger] self.nodes[i]).uid != (#[trigger] self.nodes[j]).uid
    }
}

/// A node is found exactly when the graph has its identifier, and what is found has it.
pub proof fn lemma_node_from(g: GraphView, uid: Seq<char>, from: int)
    requires
        0 <= from,
        forall|i: int| 0 <= i < from && i < g.nodes.len() ==> (#[trigger] g.nodes[i]).uid != uid,
    ensures
        g.node_from(uid, from) is Some == g.has(uid),
        g.node_from(uid, from) matches Some(n) ==> n.uid == uid && g.nodes.contains(n),
    decreases g.nodes.len() - from,
{
    if from < g.nodes.len() && g.nodes[from].uid != uid {
        lemma_node_from(g, uid, from + 1);
    }
}

/// Adding a node keeps every identifier, adds its own and no other, keeps the edges, and keeps
/// identifiers distinct.
pub proof fn law_with_node(g: GraphView, n: NodeView)
    ensures
        forall|u: Seq<char>| #[trigger] g.with_node(n).has(u) == (g.has(u) || u == n.uid),
        g.with_node(n).edges == g.edges,
        g.wf() ==> g.with_node(n).wf(),
{
    let h = g.with_node(n);
    assert forall|u: Seq<char>| #[trigger] h.has(u) == (g.has(u) || u == n.uid) by {
        if g.has(u) {
            let i = choose|i: int| 0 <= i < g.nodes.len() && (#[trigger] g.nodes[i]).uid == u;
            assert(h.nodes[i].uid == u);
        }
        if u == n.uid {
            if g.has(u) {
                let i = choose|i: int| 0 <= i < g.nodes.len() && (#[trigger] g.nodes[i]).uid == u;
                assert(h.nodes[i].uid == u);
            } else {
                assert(h.nodes[g.nodes.len() as int].uid == u);
            }
        }
        if h.has(u) {
            let i = choose|i: int| 0 <= i < h.nodes.len() && (#[trigger] h.nodes[i]).uid == u;
            if i < g.nodes.len() {
                assert(g.nodes[i].uid == u);
            }
        }
    }
    if g.wf() {
        assert forall|i: int, j: int| 0 <= i < j < h.nodes.len() implies (#[trigger] h.nodes[i]).uid != (
        #[trigger] h.nodes[j]).uid by {
            assert(i < g.nodes.len() ==> g.nodes[i].uid == h.nodes[i].uid);
            assert(j < g.nodes.len() ==> g.nodes[j].uid == h.nodes[j].uid);
        }
    }
}

/// Adding an edge keeps the nodes.
pub proof fn law_with_edge(g: GraphView, e: EdgeView)
    ensures
        forall|u: Seq<char>| #[trigger] g.with_edge(e).has(u) == g.has(u),
        g.wf() ==> g.with_edge(e).wf(),
{
}

/// Adding the same node twice is adding it once.
pub proof fn law_with_node_idempotent(g: GraphView, n: NodeView)
    ensures
        g.with_node(n).with_node(n) == g.with_node(n),
{
    law_with_node(g, n);
    let h = g.with_node(n);
    assert(h.has(n.uid));
    assert forall|i: int| 0 <= i < h.nodes.len() implies h.with_node(n).nodes[i] == h.nodes[i] by {
        if h.nodes[i].uid == n.uid && i < g.nodes.len() && !g.has(n.uid) {
            assert(g.nodes[i].uid == n.uid);
        }
    }
    assert(h.with_node(n) =~= h);
}

impl Graph {
    /// The graph without nodes and edges.
    pub fn new() -> (r: Graph)
        ensures
            r@ == GraphView::empty(),
    {
        let r = Graph { nodes: Vec::new(), edges: Vec::new() };
        assert(r@ =~= GraphView::empty());
        r
    }

    /// The position of the first node with this identifier.
    pub fn find(&self, uid: &Uid) -> (r: Option<usize>)
        ensures
            r is Some == self@.has(uid@),
            match r {
                Some(i) => i < self.nodes@.len() && self@.node(uid@) == Some(self.nodes@[i as int]@),
                None => self@.node(uid@) is None,
            },
    {
        let mut i: usize = 0;
        while i < self.nodes.len()
            invariant
                i <= self.nodes@.len(),
                forall|j: int| 0 <= j < i ==> (#[trigger] self@.nodes[j]).uid != uid@,
                self@.node(uid@) == self@.node_from(uid@, i as int),
            decreases self.nodes@.len() - i,
        {
            assert(self@.nodes[i as int] == self.nodes@[i as int]@);
            if self.nodes[i].uid.same(uid) {
                return Some(i);
            }
            i = i + 1;
        }
        None
    }

    /// The node with this identifier.
    pub fn get_node(&self, uid: &Uid) -> (r: Option<&Node>)
        ensures
            r is Some == self@.has(uid@),
            match r {
                Some(n) => self@.node(uid@) == Some(n@),
                None => self@.node(uid@) is None,
            },
    {
        match self.find(uid) {
            Some(i) => Some(&self.nodes[i]),
            None => None,
        }
    }

    /// Whether a node with this identifier is in the graph.
    pub fn has_node(&self, uid: &Uid) -> (r: bool)
        ensures
            r == self@.has(uid@),
    {
        self.find(uid).is_some()
    }

    /// Adds a node: in place of the node of the same identifier, else at the end.
    pub fn add_node(&mut self, n: Node)
        ensures
            final(self)@ == old(self)@.with_node(n@),
    {
        let ghost before = self@;
        let ghost nv = n@;
        let found = self.has_node(&n.uid);
        if found {
            let mut i: usize = 0;
            while i < self.nodes.len()
                invariant
                    nv == n@,
                    i <= self.nodes@.len(),
                    self.nodes@.len() == before.nodes.len(),
                    self@.edges == before.edges,
                    forall|j: int|
                        0 <= j < i ==> (#[trigger] self.nodes@[j])@ == (if before.nodes[j].uid == nv.uid {
                            nv
                        } else {
                            before.nodes[j]
                        }),
                    forall|j: int| i <= j < self.nodes@.len() ==> (#[trigger] self.nodes@[j])@ == before.nodes[j],
                decreases self.nodes@.len() - i,
            {
                if self.nodes[i].uid.same(&n.uid) {
                    self.nodes.set(i, n.clone());
                }
                i = i + 1;
            }
            assert(self@ =~= before.with_node(nv));
        } else {
            self.nodes.push(n);
            assert(self@ =~= before.with_node(nv));
        }
    }

    /// Adds an edge at the end.
    pub fn add_edge(&mut self, e: Edge)
        ensures
            final(self)@ == old(self)@.with_edge(e@),
    {
        let ghost before = self@;
        let ghost ev = e@;
        self.edges.push(e);
        assert(self@ =~= before.with_edge(ev));
    }

    /// Adds an edge at the end, unless it is among the first `known`.
    pub fn add_new_edge(&mut self, known: usize, e: Edge)
        ensures
            final(self)@ == old(self)@.with_new_edge(known as nat, e@),
    {
        let mut i: usize = 0;
        while i < known && i < self.edges.len()
            invariant
                i <= self.edges@.len(),
                self@ == old(self)@,
                forall|j: int| 0 <= j < i ==> (#[trigger] self@.edges[j]) != e@,
            decreases self.edges@.len() - i,
        {
            assert(self@.edges[i as int] == self.edges@[i as int]@);
            if self.edges[i].same(&e) {
                return ;
            }
            i = i + 1;
        }
        self.add_edge(e);
    }

    /// The number of nodes.
    pub fn node_count(&self) -> (r: usize)
        ensures
            r == self@.nodes.len(),
    {
        self.nodes.len()
    }

    /// The number of edges.
    pub fn edge_count(&self) -> (r: usize)
        ensures
            r == self@.edges.len(),
    {
        self.edges.len()
    }
}

/// The end of an edge that a query from `uid` in this direction starts at, and the other end.
pub open spec fn ends_of(e: EdgeView, direction: Direction) -> (Seq<char>, Seq<char>) {
    match direction {
        Direction::Outgoing => (e.src, e.dst),
        Direction::Incoming => (e.dst, e.src),
    }
}

/// Whether `kinds` admits a kind: the empty list admits every kind.
pub open spec fn admits(kinds: Seq<EdgeKind>, kind: EdgeKind) -> bool {
    kinds.len() == 0 || kinds.contains(kind)
}

/// The neighbours of a node through the first `n` edges: each edge with the node at its other end,
/// where that is in the graph.
pub open spec fn neighbors_upto(
    g: GraphView,
    uid: Seq<char>,
    direction: Direction,
    kinds: Seq<EdgeKind>,
    n: nat,
) -> Seq<(EdgeView, NodeView)>
    decreases n,
{
    if n == 0 {
        Seq::empty()
    } else {
        let rest = neighbors_upto(g, uid, direction, kinds, (n - 1) as nat);
        let e = g.edges[n - 1];
        let ends = ends_of(e, direction);
        match g.node(ends.1) {
            Some(node) => if ends.0 == uid && admits(kinds, e.kind) {
                rest.push((e, node))
            } else {
                rest
            },
            None => rest,
        }
    }
}

/// A neighbour of a node.
#[derive(Debug, PartialEq, Eq)]
pub struct Neighbor {
    pub edge: Edge,
    pub node: Node,
}

/// The values of a sequence of neighbours.
pub open spec fn neighbor_views(v: Seq<Neighbor>) -> Seq<(EdgeView, NodeView)> {
    Seq::new(v.len(), |i: int| (v[i].edge@, v[i].node@))
}

fn kind_admitted(kinds: &Vec<EdgeKind>, kind: EdgeKind) -> (r: bool)
    ensures
        r == admits(kinds@, kind),
{
    if kinds.len() == 0 {
        return true;
    }
    let mut i: usize = 0;
    while i < kinds.len()
        invariant
            i <= kinds@.len(),
            kinds@.len() > 0,
            forall|j: int| 0 <= j < i ==> kinds@[j] != kind,
        decreases kinds@.len() - i,
    {
        if kinds[i] == kind {
            assert(kinds@[i as int] == kind);
            return true;
        }
        i = i + 1;
    }
    false
}

impl Graph {
    /// The neighbours of a node, in the order of the edges. An empty list of kinds admits all.
    pub fn neighbors(&self, uid: &Uid, direction: Direction, kinds: &Vec<EdgeKind>) -> (r: Vec<Neighbor>)
        ensures
            neighbor_views(r@) == neighbors_upto(self@, uid@, direction, kinds@, self@.edges.len()),
    {
        let mut out: Vec<Neighbor> = Vec::new();
        assert(neighbor_views(out@) =~= neighbors_upto(self@, uid@, direction, kinds@, 0));
        let mut i: usize = 0;
        while i < self.edges.len()
            invariant
                i <= self.edges@.len(),
                neighbor_views(out@) == neighbors_upto(self@, uid@, direction, kinds@, i as nat),
            decreases self.edges@.len() - i,
        {
            let e = &self.edges[i];
            assert(self@.edges[i as int] == e@);
            let (near, far) = match direction {
                Direction::Outgoing => (&e.src, &e.dst),
                Direction::Incoming => (&e.dst, &e.src),
            };
            if near.same(uid) && kind_admitted(kinds, e.kind) {
                match self.get_node(far) {
                    Some(node) => {
                        let ghost before = neighbor_views(out@);
                        out.push(Neighbor { edge: e.clone(), node: node.clone() });
                        assert(neighbor_views(out@) =~= before.push((e@, node@)));
                    },
                    None => {},
                }
            }
            i = i + 1;
        }
        out
    }
}

/// The edges among the first `m` that lead from `uid` to a node.
pub open spec fn edges_from(g: GraphView, uid: Seq<char>, m: nat) -> Seq<EdgeView>
    decreases m,
{
    if m == 0 {
        Seq::empty()
    } else {
        let rest = edges_from(g, uid, (m - 1) as nat);
        let e = g.edges[m - 1];
        if e.src == uid && g.has(e.dst) {
            rest.push(e)
        } else {
            rest
        }
    }
}

/// The edges that lead from one of the first `n` nodes to a node, node by node.
pub open spec fn outgoing_upto(g: GraphView, n: nat) -> Seq<EdgeView>
    decreases n,
{
    if n == 0 {
        Seq::empty()
    } else {
        outgoing_upto(g, (n - 1) as nat) + edges_from(g, g.nodes[n - 1].uid, g.edges.len())
    }
}

/// The edges between nodes of the graph, by the node that they lead from.
pub open spec fn outgoing(g: GraphView) -> Seq<EdgeView> {
    outgoing_upto(g, g.nodes.len())
}

impl Graph {
    /// The edges between nodes of the graph, by the node that they lead from.
    pub fn outgoing_edges(&self) -> (r: Vec<Edge>)
        ensures
            edge_views(r@) == outgoing(self@),
    {
        let mut out: Vec<Edge> = Vec::new();
        assert(edge_views(out@) =~= outgoing_upto(self@, 0));
        let mut i: usize = 0;
        while i < self.nodes.len()
            invariant
                i <= self.nodes@.len(),
                edge_views(out@) == outgoing_upto(self@, i as nat),
            decreases self.nodes@.len() - i,
        {
            let uid = &self.nodes[i].uid;
            assert(self@.nodes[i as int].uid == uid@);
            let ghost base = edge_views(out@);
            assert(base + edges_from(self@, uid@, 0) =~= base);
            let mut j: usize = 0;
            while j < self.edges.len()
                invariant
                    j <= self.edges@.len(),
                    edge_views(out@) == base + edges_from(self@, uid@, j as nat),
                decreases self.edges@.len() - j,
            {
                let e = &self.edges[j];
                assert(self@.edges[j as int] == e@);
                if e.src.same(uid) && self.has_node(&e.dst) {
                    let ghost before = edge_views(out@);
                    out.push(e.clone());
                    assert(edge_views(out@) =~= before.push(e@));
                    assert(edge_views(out@) =~= base + edges_from(self@, uid@, (j + 1) as nat));
                }
                j = j + 1;
            }
            i = i + 1;
        }
        out
    }
}

/// An edge between two nodes, certain, read off a source.
pub open spec fn fact_edge(src: Seq<char>, dst: Seq<char>, kind: EdgeKind) -> EdgeView {
    edge_of(src, dst, kind, Provenance::Extracted, CERTAIN)
}

/// An edge between two nodes, certain, read off a source.
pub fn extracted_edge(src: &Uid, dst: &Uid, kind: EdgeKind) -> (r: Edge)
    ensures
        r@ == fact_edge(src@, dst@, kind),
{
    Edge::make(src, dst, kind, Provenance::Extracted, CERTAIN)
}

/// Where a confidence may lie, given how the edge was learned: an inference stays at or below four
/// fifths, an ambiguity below two fifths, and a fact or a resolution at or above nineteen
/// twentieths.
pub open spec fn in_band(provenance: Provenance, confidence: u32) -> bool {
    match provenance {
        Provenance::Extracted | Provenance::Resolved => 950_000_000 <= confidence <= CERTAIN,
        Provenance::Inferred => 400_000_000 <= confidence <= 800_000_000,
        Provenance::Ambiguous => confidence < 400_000_000,
        Provenance::Observed | Provenance::Model => confidence <= CERTAIN,
    }
}

/// Every edge lies in the band of its provenance.
pub open spec fn all_banded(g: GraphView) -> bool {
    forall|i: int| 0 <= i < g.edges.len() ==> in_band((#[trigger] g.edges[i]).provenance, g.edges[i].confidence)
}

/// Every edge of `g` stays in `h` at its place, and every node identifier of `g` stays.
pub open spec fn extends(g: GraphView, h: GraphView) -> bool {
    &&& forall|u: Seq<char>| #[trigger] g.has(u) ==> h.has(u)
    &&& g.edges.len() <= h.edges.len()
    &&& forall|i: int| 0 <= i < g.edges.len() ==> #[trigger] h.edges[i] == g.edges[i]
}

/// No two nodes share an identifier, and every edge lies in its band.
pub open spec fn sound(g: GraphView) -> bool {
    g.wf() && all_banded(g)
}

/// `h` is `g` with nodes and edges added, and is sound where `g` is.
pub open spec fn keeps(g: GraphView, h: GraphView) -> bool {
    extends(g, h) && (sound(g) ==> sound(h))
}

/// Adding a node keeps the graph.
pub proof fn lemma_keeps_node(g: GraphView, h: GraphView, n: NodeView)
    requires
        keeps(g, h),
    ensures
        keeps(g, h.with_node(n)),
{
    law_with_node(h, n);
}

/// Adding an edge that lies in its band keeps the graph.
pub proof fn lemma_keeps_edge(g: GraphView, h: GraphView, e: EdgeView)
    requires
        keeps(g, h),
        in_band(e.provenance, e.confidence),
    ensures
        keeps(g, h.with_edge(e)),
{
    law_with_edge(h, e);
    assert forall|i: int| 0 <= i < h.with_edge(e).edges.len() && sound(h) implies in_band(
        (#[trigger] h.with_edge(e).edges[i]).provenance,
        h.with_edge(e).edges[i].confidence,
    ) by {
        if i < h.edges.len() {
            assert(h.with_edge(e).edges[i] == h.edges[i]);
        }
    }
}

/// Keeping is transitive.
pub proof fn lemma_keeps_trans(f: GraphView, g: GraphView, h: GraphView)
    requires
        keeps(f, g),
        keeps(g, h),
    ensures
        keeps(f, h),
{
}

/// Every edge that `h` has beyond those of `g` leads to a node of `h`.
pub open spec fn reaches(g: GraphView, h: GraphView) -> bool {
    forall|i: int| g.edges.len() <= i < h.edges.len() ==> h.has((#[trigger] h.edges[i]).dst)
}

/// `h` is `g` with nodes added, and with edges that lead to nodes; it is sound where `g` is.
pub open spec fn grows(g: GraphView, h: GraphView) -> bool {
    keeps(g, h) && reaches(g, h)
}

/// Adding a node lets a graph grow.
pub proof fn lemma_grows_node(g: GraphView, h: GraphView, n: NodeView)
    requires
        grows(g, h),
    ensures
        grows(g, h.with_node(n)),
        h.with_node(n).has(n.uid),
        extends(h, h.with_node(n)),
{
    lemma_keeps_node(g, h, n);
    law_with_node(h, n);
    let k = h.with_node(n);
    assert forall|i: int| g.edges.len() <= i < k.edges.len() implies k.has((#[trigger] k.edges[i]).dst) by {
        assert(h.has(h.edges[i].dst));
    }
}

/// Adding an edge that lies in its band and leads to a node lets a graph grow.
pub proof fn lemma_grows_edge(g: GraphView, h: GraphView, e: EdgeView)
    requires
        grows(g, h),
        in_band(e.provenance, e.confidence),
        h.has(e.dst),
    ensures
        grows(g, h.with_edge(e)),
        extends(h, h.with_edge(e)),
{
    lemma_keeps_edge(g, h, e);
    law_with_edge(h, e);
    let k = h.with_edge(e);
    assert forall|i: int| g.edges.len() <= i < k.edges.len() implies k.has((#[trigger] k.edges[i]).dst) by {
        if i < h.edges.len() {
            assert(k.edges[i] == h.edges[i]);
            assert(h.has(h.edges[i].dst));
        }
    }
}

/// Adding an edge that lies in its band and leads to a node, unless it is known, lets a graph grow.
pub proof fn lemma_grows_new_edge(g: GraphView, h: GraphView, known: nat, e: EdgeView)
    requires
        grows(g, h),
        in_band(e.provenance, e.confidence),
        h.has(e.dst),
    ensures
        grows(g, h.with_new_edge(known, e)),
        extends(h, h.with_new_edge(known, e)),
{
    if !h.knows(known, e) {
        lemma_grows_edge(g, h, e);
    }
}

/// An edge that was added is there, as are those that were there before, and the nodes stay. Where
/// every edge is known, adding it again changes nothing.
pub proof fn law_with_new_edge(g: GraphView, known: nat, e: EdgeView)
    ensures
        g.with_new_edge(known, e).edges.contains(e),
        g.with_new_edge(known, e).nodes == g.nodes,
        extends(g, g.with_new_edge(known, e)),
        ({
            let h = g.with_new_edge(known, e);
            h.with_new_edge(h.edges.len(), e) == h
        }),
{
    let h = g.with_new_edge(known, e);
    if g.knows(known, e) {
        let i = choose|i: int| 0 <= i < known && i < g.edges.len() && g.edges[i] == e;
        assert(h.edges[i] == e);
    } else {
        assert(h.edges[g.edges.len() as int] == e);
    }
}

/// Growing is transitive.
pub proof fn lemma_grows_trans(f: GraphView, g: GraphView, h: GraphView)
    requires
        grows(f, g),
        grows(g, h),
    ensures
        grows(f, h),
{
    assert forall|i: int| f.edges.len() <= i < h.edges.len() implies h.has((#[trigger] h.edges[i]).dst) by {
        if i < g.edges.len() {
            assert(h.edges[i] == g.edges[i]);
            assert(g.has(g.edges[i].dst));
        }
    }
}

// ----------------------------------------------------------------------------------------------
// Lists of nodes and edges
// ----------------------------------------------------------------------------------------------

/// The graph with the first `n` of a list of nodes added.
pub open spec fn with_nodes(g: GraphView, nodes: Seq<NodeView>, n: nat) -> GraphView
    decreases n,
{
    if n == 0 {
        g
    } else {
        with_nodes(g, nodes, (n - 1) as nat).with_node(nodes[n - 1])
    }
}

/// The graph with a list of edges added.
pub open spec fn with_edges(g: GraphView, edges: Seq<EdgeView>) -> GraphView {
    GraphView { nodes: g.nodes, edges: g.edges + edges }
}

/// The graph with a list of nodes and a list of edges added.
pub open spec fn with_all(g: GraphView, nodes: Seq<NodeView>, edges: Seq<EdgeView>) -> GraphView {
    with_edges(with_nodes(g, nodes, nodes.len()), edges)
}

impl Graph {
    /// Adds a list of nodes and a list of edges.
    pub fn add_all(&mut self, nodes: &Vec<Node>, edges: &Vec<Edge>)
        ensures
            final(self)@ == with_all(old(self)@, node_views(nodes@), edge_views(edges@)),
    {
        let ghost start = self@;
        let ghost nv = node_views(nodes@);
        let mut i: usize = 0;
        while i < nodes.len()
            invariant
                i <= nodes@.len(),
                nv == node_views(nodes@),
                self@ == with_nodes(start, nv, i as nat),
            decreases nodes@.len() - i,
        {
            assert(nv[i as int] == nodes@[i as int]@);
            self.add_node(nodes[i].clone());
            i = i + 1;
        }
        let ghost ev = edge_views(edges@);
        let ghost mid = self@;
        assert(ev.take(0) =~= Seq::<EdgeView>::empty());
        assert(self@ =~= with_edges(mid, ev.take(0)));
        let mut j: usize = 0;
        while j < edges.len()
            invariant
                j <= edges@.len(),
                ev == edge_views(edges@),
                self@ == with_edges(mid, ev.take(j as int)),
            decreases edges@.len() - j,
        {
            assert(ev[j as int] == edges@[j as int]@);
            self.add_edge(edges[j].clone());
            assert(ev.take(j + 1) =~= ev.take(j as int).push(ev[j as int]));
            assert(self@ =~= with_edges(mid, ev.take(j + 1)));
            j = j + 1;
        }
        assert(ev.take(ev.len() as int) =~= ev);
    }
}

/// Adding a list of nodes, and a list of edges that lie in their bands, keeps the graph.
pub proof fn lemma_keeps_all(g: GraphView, nodes: Seq<NodeView>, edges: Seq<EdgeView>)
    requires
        forall|i: int| 0 <= i < edges.len() ==> in_band((#[trigger] edges[i]).provenance, edges[i].confidence),
    ensures
        keeps(g, with_all(g, nodes, edges)),
{
    lemma_keeps_nodes(g, nodes, nodes.len());
    let m = with_nodes(g, nodes, nodes.len());
    let h = with_edges(m, edges);
    assert forall|u: Seq<char>| #[trigger] m.has(u) implies h.has(u) by {
        let i = choose|i: int| 0 <= i < m.nodes.len() && (#[trigger] m.nodes[i]).uid == u;
        assert(h.nodes[i].uid == u);
    }
    assert forall|i: int| 0 <= i < h.edges.len() && sound(m) implies in_band(
        (#[trigger] h.edges[i]).provenance,
        h.edges[i].confidence,
    ) by {
        if i < m.edges.len() {
            assert(h.edges[i] == m.edges[i]);
        } else {
            assert(h.edges[i] == edges[i - m.edges.len()]);
        }
    }
}

/// Adding a list of nodes keeps the graph.
pub proof fn lemma_keeps_nodes(g: GraphView, nodes: Seq<NodeView>, n: nat)
    ensures
        keeps(g, with_nodes(g, nodes, n)),
    decreases n,
{
    if n > 0 {
        lemma_keeps_nodes(g, nodes, (n - 1) as nat);
        lemma_keeps_node(g, with_nodes(g, nodes, (n - 1) as nat), nodes[n - 1]);
    }
}

/// A node of a list that was added is there.
pub proof fn lemma_with_nodes_has(g: GraphView, nodes: Seq<NodeView>, n: nat, i: int)
    requires
        0 <= i < n <= nodes.len(),
    ensures
        with_nodes(g, nodes, n).has(nodes[i].uid),
    decreases n,
{
    law_with_node(with_nodes(g, nodes, (n - 1) as nat), nodes[n - 1]);
    if i < n - 1 {
        lemma_with_nodes_has(g, nodes, (n - 1) as nat, i);
    }
}

/// Adding a list of nodes leaves the edges as they are.
pub proof fn lemma_with_nodes_edges(g: GraphView, nodes: Seq<NodeView>, n: nat)
    ensures
        with_nodes(g, nodes, n).edges == g.edges,
    decreases n,
{
    if n > 0 {
        lemma_with_nodes_edges(g, nodes, (n - 1) as nat);
    }
}

/// The graph with a list of nodes added depends on no more of the list than is added.
pub proof fn lemma_with_nodes_prefix(g: GraphView, a: Seq<NodeView>, b: Seq<NodeView>, n: nat)
    requires
        n <= a.len(),
        n <= b.len(),
        a.take(n as int) == b.take(n as int),
    ensures
        with_nodes(g, a, n) == with_nodes(g, b, n),
    decreases n,
{
    if n > 0 {
        assert(a.take(n - 1) =~= a.take(n as int).take(n - 1));
        assert(b.take(n - 1) =~= b.take(n as int).take(n - 1));
        lemma_with_nodes_prefix(g, a, b, (n - 1) as nat);
        assert(a[n - 1] == a.take(n as int)[n - 1]);
        assert(b[n - 1] == b.take(n as int)[n - 1]);
    }
}

/// Adding one list of nodes after another is adding the two as one.
pub proof fn lemma_with_nodes_append(g: GraphView, a: Seq<NodeView>, b: Seq<NodeView>, n: nat)
    requires
        n <= b.len(),
    ensures
        with_nodes(g, a + b, a.len() + n) == with_nodes(with_nodes(g, a, a.len()), b, n),
    decreases n,
{
    if n == 0 {
        assert((a + b).take(a.len() as int) =~= a.take(a.len() as int));
        lemma_with_nodes_prefix(g, a + b, a, a.len());
    } else {
        lemma_with_nodes_append(g, a, b, (n - 1) as nat);
        assert((a + b)[a.len() + n - 1] == b[n - 1]);
    }
}

/// The last of the first `n` nodes of a list with this identifier.
pub open spec fn last_named(nodes: Seq<NodeView>, uid: Seq<char>, n: nat) -> Option<NodeView>
    decreases n,
{
    if n == 0 {
        None
    } else if nodes[n - 1].uid == uid {
        Some(nodes[n - 1])
    } else {
        last_named(nodes, uid, (n - 1) as nat)
    }
}

/// Whether a list of nodes shows in the graph: each identifier of it is there, with what the list
/// says of it last.
pub open spec fn shows(g: GraphView, nodes: Seq<NodeView>, n: nat) -> bool {
    &&& forall|j: int| 0 <= j < n ==> g.has((#[trigger] nodes[j]).uid)
    &&& forall|i: int|
        0 <= i < g.nodes.len() ==> (last_named(nodes, (#[trigger] g.nodes[i]).uid, n) matches Some(x) ==> g.nodes[i] == x)
}

/// A list of nodes that was added shows.
pub proof fn lemma_added_shows(g: GraphView, nodes: Seq<NodeView>, n: nat)
    requires
        n <= nodes.len(),
    ensures
        shows(with_nodes(g, nodes, n), nodes, n),
    decreases n,
{
    if n > 0 {
        lemma_added_shows(g, nodes, (n - 1) as nat);
        let h = with_nodes(g, nodes, (n - 1) as nat);
        let x = nodes[n - 1];
        let k = with_nodes(g, nodes, n);
        law_with_node(h, x);
        assert forall|i: int| 0 <= i < k.nodes.len() implies (last_named(nodes, (#[trigger] k.nodes[i]).uid, n) matches Some(
            y,
        ) ==> k.nodes[i] == y) by {
            if i < h.nodes.len() {
                assert(h.nodes[i].uid == k.nodes[i].uid);
                if h.nodes[i].uid == x.uid {
                    assert(h.has(x.uid));
                }
            }
        }
    }
}

proof fn lemma_last_named(nodes: Seq<NodeView>, uid: Seq<char>, n: nat)
    requires
        n <= nodes.len(),
    ensures
        match last_named(nodes, uid, n) {
            Some(x) => x.uid == uid && exists|j: int| 0 <= j < n && #[trigger] nodes[j] == x,
            None => forall|j: int| 0 <= j < n ==> (#[trigger] nodes[j]).uid != uid,
        },
    decreases n,
{
    if n > 0 {
        lemma_last_named(nodes, uid, (n - 1) as nat);
        if nodes[n - 1].uid == uid {
            assert(nodes[n - 1] == last_named(nodes, uid, n)->Some_0);
        }
    }
}

/// A list of nodes goes on to show when a node that it does not name is added.
pub proof fn lemma_shows_node(g: GraphView, nodes: Seq<NodeView>, n: nat, x: NodeView)
    requires
        n <= nodes.len(),
        shows(g, nodes, n),
        forall|j: int| 0 <= j < n ==> (#[trigger] nodes[j]).uid != x.uid,
    ensures
        shows(g.with_node(x), nodes, n),
{
    law_with_node(g, x);
    let k = g.with_node(x);
    assert forall|i: int| 0 <= i < k.nodes.len() implies (last_named(nodes, (#[trigger] k.nodes[i]).uid, n) matches Some(
        y,
    ) ==> k.nodes[i] == y) by {
        lemma_last_named(nodes, k.nodes[i].uid, n);
        if i < g.nodes.len() {
            assert(g.nodes[i].uid == k.nodes[i].uid);
        }
    }
}

/// What the first `n` nodes of a list make of a node.
pub open spec fn renewed(nodes: Seq<NodeView>, n: nat, x: NodeView) -> NodeView {
    match last_named(nodes, x.uid, n) {
        Some(y) => y,
        None => x,
    }
}

proof fn lemma_renewed(g: GraphView, nodes: Seq<NodeView>, n: nat)
    requires
        n <= nodes.len(),
        forall|j: int| 0 <= j < nodes.len() ==> g.has((#[trigger] nodes[j]).uid),
    ensures
        with_nodes(g, nodes, n) == (GraphView {
            nodes: Seq::new(g.nodes.len(), |i: int| renewed(nodes, n, g.nodes[i])),
            edges: g.edges,
        }),
    decreases n,
{
    let want = GraphView {
        nodes: Seq::new(g.nodes.len(), |i: int| renewed(nodes, n, g.nodes[i])),
        edges: g.edges,
    };
    if n == 0 {
        assert(want =~= g);
    } else {
        lemma_renewed(g, nodes, (n - 1) as nat);
        let h = with_nodes(g, nodes, (n - 1) as nat);
        let x = nodes[n - 1];
        let at = choose|i: int| 0 <= i < g.nodes.len() && (#[trigger] g.nodes[i]).uid == x.uid;
        assert(g.has(x.uid));
        lemma_last_named(nodes, g.nodes[at].uid, (n - 1) as nat);
        assert(h.nodes[at].uid == x.uid);
        assert(h.has(x.uid));
        assert forall|i: int| 0 <= i < g.nodes.len() implies #[trigger] h.with_node(x).nodes[i] == want.nodes[i] by {
            lemma_last_named(nodes, g.nodes[i].uid, (n - 1) as nat);
        }
        assert(h.with_node(x) =~= want);
    }
}

/// Adding a list of nodes that shows changes nothing.
pub proof fn lemma_shown_again(g: GraphView, nodes: Seq<NodeView>)
    requires
        shows(g, nodes, nodes.len()),
    ensures
        with_nodes(g, nodes, nodes.len()) == g,
{
    lemma_renewed(g, nodes, nodes.len());
    assert(with_nodes(g, nodes, nodes.len()) =~= g);
}

proof fn lemma_edges_from(g: GraphView, uid: Seq<char>, m: nat)
    requires
        m <= g.edges.len(),
    ensures
        forall|i: int|
            0 <= i < edges_from(g, uid, m).len() ==> g.edges.contains(#[trigger] edges_from(g, uid, m)[i]),
        forall|j: int|
            0 <= j < m && (#[trigger] g.edges[j]).src == uid && g.has(g.edges[j].dst) ==> edges_from(
                g,
                uid,
                m,
            ).contains(g.edges[j]),
    decreases m,
{
    if m > 0 {
        lemma_edges_from(g, uid, (m - 1) as nat);
        let rest = edges_from(g, uid, (m - 1) as nat);
        let all = edges_from(g, uid, m);
        assert forall|i: int| 0 <= i < all.len() implies g.edges.contains(#[trigger] all[i]) by {
            if i < rest.len() {
                assert(all[i] == rest[i]);
            } else {
                assert(all[i] == g.edges[m - 1]);
            }
        }
        assert forall|j: int| 0 <= j < m && (#[trigger] g.edges[j]).src == uid && g.has(g.edges[j].dst) implies all.contains(
            g.edges[j],
        ) by {
            if j < m - 1 {
                let k = choose|k: int| 0 <= k < rest.len() && rest[k] == g.edges[j];
                assert(all[k] == g.edges[j]);
            } else {
                assert(all[rest.len() as int] == g.edges[j]);
            }
        }
    }
}

proof fn lemma_outgoing_upto(g: GraphView, n: nat)
    requires
        n <= g.nodes.len(),
    ensures
        forall|i: int| 0 <= i < outgoing_upto(g, n).len() ==> g.edges.contains(#[trigger] outgoing_upto(g, n)[i]),
        forall|j: int, k: int|
            0 <= j < g.edges.len() && 0 <= k < n && (#[trigger] g.edges[j]).src == (#[trigger] g.nodes[k]).uid
                && g.has(g.edges[j].dst) ==> outgoing_upto(g, n).contains(g.edges[j]),
    decreases n,
{
    if n > 0 {
        lemma_outgoing_upto(g, (n - 1) as nat);
        let uid = g.nodes[n - 1].uid;
        lemma_edges_from(g, uid, g.edges.len());
        let rest = outgoing_upto(g, (n - 1) as nat);
        let more = edges_from(g, uid, g.edges.len());
        let all = outgoing_upto(g, n);
        assert forall|i: int| 0 <= i < all.len() implies g.edges.contains(#[trigger] all[i]) by {
            if i < rest.len() {
                assert(all[i] == rest[i]);
            } else {
                assert(all[i] == more[i - rest.len()]);
            }
        }
        assert forall|j: int, k: int|
            0 <= j < g.edges.len() && 0 <= k < n && (#[trigger] g.edges[j]).src == (#[trigger] g.nodes[k]).uid
                && g.has(g.edges[j].dst) implies all.contains(g.edges[j]) by {
            if k < n - 1 {
                let i = choose|i: int| 0 <= i < rest.len() && rest[i] == g.edges[j];
                assert(all[i] == g.edges[j]);
            } else {
                let i = choose|i: int| 0 <= i < more.len() && more[i] == g.edges[j];
                assert(all[rest.len() + i] == g.edges[j]);
            }
        }
    }
}

/// The outgoing edges of a graph are edges of it, and every edge between nodes is among them.
pub proof fn law_outgoing(g: GraphView)
    ensures
        forall|i: int| 0 <= i < outgoing(g).len() ==> g.edges.contains(#[trigger] outgoing(g)[i]),
        forall|j: int|
            0 <= j < g.edges.len() && g.has((#[trigger] g.edges[j]).src) && g.has(g.edges[j].dst) ==> outgoing(
                g,
            ).contains(g.edges[j]),
{
    lemma_outgoing_upto(g, g.nodes.len());
    assert forall|j: int| 0 <= j < g.edges.len() && g.has((#[trigger] g.edges[j]).src) && g.has(g.edges[j].dst) implies outgoing(
        g,
    ).contains(g.edges[j]) by {
        let k = choose|k: int| 0 <= k < g.nodes.len() && (#[trigger] g.nodes[k]).uid == g.edges[j].src;
        assert(g.edges[j].src == g.nodes[k].uid);
    }
}

/// What a sequence holds once an item is added at its end.
pub proof fn lemma_pushed<T>(s: Seq<T>, x: T, y: T)
    ensures
        s.push(x).contains(y) == (s.contains(y) || y == x),
{
    let t = s.push(x);
    if s.contains(y) {
        let i = choose|i: int| 0 <= i < s.len() && s[i] == y;
        assert(t[i] == y);
    }
    if y == x {
        assert(t[s.len() as int] == y);
    }
    if t.contains(y) {
        let i = choose|i: int| 0 <= i < t.len() && t[i] == y;
        if i < s.len() {
            assert(s[i] == y);
        }
    }
}

/// Adding a node adds no other node, and puts it into the graph as it is.
pub proof fn lemma_noded(g: GraphView, n: NodeView)
    ensures
        g.with_node(n).nodes.contains(n),
        forall|x: NodeView| #[trigger] g.with_node(n).nodes.contains(x) ==> g.nodes.contains(x) || x == n,
        forall|x: NodeView| g.nodes.contains(x) && x.uid != n.uid ==> #[trigger] g.with_node(n).nodes.contains(x),
{
    let h = g.with_node(n);
    if g.has(n.uid) {
        let i = choose|i: int| 0 <= i < g.nodes.len() && (#[trigger] g.nodes[i]).uid == n.uid;
        assert(h.nodes[i] == n);
    } else {
        assert(h.nodes[g.nodes.len() as int] == n);
    }
    assert forall|x: NodeView| #[trigger] h.nodes.contains(x) implies g.nodes.contains(x) || x == n by {
        let i = choose|i: int| 0 <= i < h.nodes.len() && h.nodes[i] == x;
        if x != n {
            assert(g.nodes[i] == x);
        }
    }
    assert forall|x: NodeView| g.nodes.contains(x) && x.uid != n.uid implies #[trigger] h.nodes.contains(x) by {
        let i = choose|i: int| 0 <= i < g.nodes.len() && g.nodes[i] == x;
        assert(h.nodes[i] == x);
    }
}

/// The five parts of an identifier can be read back where none but the last holds the bar that parts
/// them: so two things have one identifier only where they agree in every part.
pub proof fn law_uid_parts(
    a: (Seq<char>, Seq<char>, Seq<char>, Seq<char>, Seq<char>),
    b: (Seq<char>, Seq<char>, Seq<char>, Seq<char>, Seq<char>),
)
    requires
        !a.0.contains('|') && !a.1.contains('|') && !a.2.contains('|') && !a.3.contains('|'),
        !b.0.contains('|') && !b.1.contains('|') && !b.2.contains('|') && !b.3.contains('|'),
    ensures
        uid_text(a.0, a.1, a.2, a.3, a.4) == uid_text(b.0, b.1, b.2, b.3, b.4) <==> a == b,
        uid_text(a.0, a.1, a.2, a.3, a.4) == a.0 + seq!['|'] + a.1 + seq!['|'] + a.2 + seq!['|'] + a.3 + seq!['|']
            + a.4,
{
    let x = uid_text(a.0, a.1, a.2, a.3, a.4);
    let y = uid_text(b.0, b.1, b.2, b.3, b.4);
    assert(x =~= a.0 + seq!['|'] + a.1 + seq!['|'] + a.2 + seq!['|'] + a.3 + seq!['|'] + a.4);
    if x == y {
        let a1 = a.1.push('|') + a.2.push('|') + a.3.push('|') + a.4;
        let b1 = b.1.push('|') + b.2.push('|') + b.3.push('|') + b.4;
        assert(x =~= a.0.push('|') + a1);
        assert(y =~= b.0.push('|') + b1);
        text::lemma_cut(a.0, a1, b.0, b1, '|');
        let a2 = a.2.push('|') + a.3.push('|') + a.4;
        let b2 = b.2.push('|') + b.3.push('|') + b.4;
        assert(a1 =~= a.1.push('|') + a2);
        assert(b1 =~= b.1.push('|') + b2);
        text::lemma_cut(a.1, a2, b.1, b2, '|');
        let a3 = a.3.push('|') + a.4;
        let b3 = b.3.push('|') + b.4;
        assert(a2 =~= a.2.push('|') + a3);
        assert(b2 =~= b.2.push('|') + b3);
        text::lemma_cut(a.2, a3, b.2, b3, '|');
        text::lemma_cut(a.3, a.4, b.3, b.4, '|');
    }
}

/// What stands in two sequences one behind the other.
pub proof fn lemma_joined<T>(a: Seq<T>, b: Seq<T>, x: T)
    ensures
        (a + b).contains(x) == (a.contains(x) || b.contains(x)),
{
    if a.contains(x) {
        let i = choose|i: int| 0 <= i < a.len() && a[i] == x;
        assert((a + b)[i] == x);
    }
    if b.contains(x) {
        let i = choose|i: int| 0 <= i < b.len() && b[i] == x;
        assert((a + b)[a.len() + i] == x);
    }
    if (a + b).contains(x) {
        let i = choose|i: int| 0 <= i < (a + b).len() && (a + b)[i] == x;
        if i < a.len() {
            assert(a[i] == x);
        } else {
            assert(b[i - a.len()] == x);
        }
    }
}

/// The neighbours of a node are the nodes at the other ends of its edges: one for each edge of an admitted
/// kind that leaves it, or that leads to it, where the other end is in the graph.
pub proof fn law_neighbors(g: GraphView, uid: Seq<char>, direction: Direction, kinds: Seq<EdgeKind>, e: EdgeView, x: NodeView)
    ensures
        neighbors_upto(g, uid, direction, kinds, g.edges.len()).contains((e, x)) <==> {
            &&& g.edges.contains(e)
            &&& kinds.len() == 0 || kinds.contains(e.kind)
            &&& direction == Direction::Outgoing ==> e.src == uid && g.node(e.dst) == Some(x)
            &&& direction == Direction::Incoming ==> e.dst == uid && g.node(e.src) == Some(x)
        },
{
    lemma_neighbors(g, uid, direction, kinds, g.edges.len(), e, x);
    if g.edges.contains(e) {
        let i = choose|i: int| 0 <= i < g.edges.len() && g.edges[i] == e;
        assert(g.edges[i] == e);
    }
}

proof fn lemma_neighbors(
    g: GraphView,
    uid: Seq<char>,
    direction: Direction,
    kinds: Seq<EdgeKind>,
    n: nat,
    e: EdgeView,
    x: NodeView,
)
    requires
        n <= g.edges.len(),
    ensures
        neighbors_upto(g, uid, direction, kinds, n).contains((e, x)) == exists|i: int|
            0 <= i < n && #[trigger] g.edges[i] == e && admits(kinds, e.kind) && ends_of(e, direction).0 == uid && g.node(
                ends_of(e, direction).1,
            ) == Some(x),
    decreases n,
{
    if n > 0 {
        let last = n - 1;
        lemma_neighbors(g, uid, direction, kinds, (n - 1) as nat, e, x);
        let rest = neighbors_upto(g, uid, direction, kinds, (n - 1) as nat);
        let y = g.node(ends_of(g.edges[last], direction).1);
        if y is Some {
            lemma_pushed(rest, (g.edges[last], y->0), (e, x));
        }
    }
}

} // verus!
