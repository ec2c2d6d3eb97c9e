//! The blast radius of a change, and its risk.
//!
//! What depends on a node is found by a traversal of the graph elsewhere. Here its results are
//! gathered over all changed symbols, each node once with its least depth and its greatest
//! confidence, and graded: by the number of nodes, or as critical where a contract breaks, where
//! contract surface is reached, or where another repository is.
use vstd::prelude::*;

use crate::changes;
use crate::changes::{ChangeKind, ChangeScope, ChangedSymbol, ContractChange, FileChange, FileDiff, Plane, SymbolView};
use crate::model;
use crate::model::{Graph, GraphView, Node, NodeKind, NodeView, Uid};
use crate::order;
use crate::order::{SortKey, SortKeyView};
use crate::ordmap;
use crate::ordmap::OrdMap;
use crate::text;

verus! {

/// Fewer affected nodes than this are a low risk.
pub const LOW_MAX: usize = 5;

/// More affected nodes than this are a high risk.
pub const MEDIUM_MAX: usize = 15;

/// The least confidence at which a dependent will break.
pub const WILL_BREAK_FLOOR: u32 = 400_000_000;

/// A node that depends on another: over how many edges, and how surely.
#[derive(Debug, PartialEq, Eq)]
pub struct ImpactHit {
    pub uid: Uid,
    pub depth: usize,
    pub confidence: u32,
    pub ambiguous: bool,
}

/// The value of an [`ImpactHit`].
#[verifier::ext_equal]
pub struct HitView {
    pub uid: Seq<char>,
    pub depth: usize,
    pub confidence: u32,
    pub ambiguous: bool,
}

impl View for ImpactHit {
    type V = HitView;

    open spec fn view(&self) -> HitView {
        HitView { uid: self.uid@, depth: self.depth, confidence: self.confidence, ambiguous: self.ambiguous }
    }
}

/// The values of a sequence of hits.
pub open spec fn hit_views(v: Seq<ImpactHit>) -> Seq<HitView> {
    Seq::new(v.len(), |i: int| v[i]@)
}

/// The nodes that depend on a node.
#[derive(Debug, PartialEq, Eq)]
pub struct ImpactEntry {
    pub uid: Uid,
    pub affected: Vec<ImpactHit>,
}

/// What depends on a node: the first entry for it at or after `from`.
pub open spec fn hits_from(table: Seq<ImpactEntry>, uid: Seq<char>, from: int) -> Seq<HitView>
    decreases table.len() - from,
{
    if from >= table.len() {
        Seq::empty()
    } else if table[from].uid@ == uid {
        hit_views(table[from].affected@)
    } else {
        hits_from(table, uid, from + 1)
    }
}

/// A node that a change affects.
#[derive(Debug, PartialEq, Eq)]
pub struct AffectedNode {
    pub uid: String,
    pub name: String,
    pub kind: String,
    pub path: String,
    pub depth: usize,
    pub confidence: u32,
    pub ambiguous: bool,
    /// Whether the node will break, or may be affected.
    pub will_break: bool,
}

/// The value of an [`AffectedNode`].
#[verifier::ext_equal]
pub struct AffectedView {
    pub uid: Seq<char>,
    pub name: Seq<char>,
    pub kind: Seq<char>,
    pub path: Seq<char>,
    pub depth: usize,
    pub confidence: u32,
    pub ambiguous: bool,
    pub will_break: bool,
}

impl View for AffectedNode {
    type V = AffectedView;

    open spec fn view(&self) -> AffectedView {
        AffectedView {
            uid: self.uid@,
            name: self.name@,
            kind: self.kind@,
            path: self.path@,
            depth: self.depth,
            confidence: self.confidence,
            ambiguous: self.ambiguous,
            will_break: self.will_break,
        }
    }
}

impl Clone for AffectedNode {
    fn clone(&self) -> (r: AffectedNode)
        ensures
            r == *self,
    {
        AffectedNode {
            uid: self.uid.clone(),
            name: self.name.clone(),
            kind: self.kind.clone(),
            path: self.path.clone(),
            depth: self.depth,
            confidence: self.confidence,
            ambiguous: self.ambiguous,
            will_break: self.will_break,
        }
    }
}

/// The values of a sequence of affected nodes.
pub open spec fn affected_views(v: Seq<AffectedNode>) -> Seq<AffectedView> {
    Seq::new(v.len(), |i: int| v[i]@)
}

// ----------------------------------------------------------------------------------------------
// Names
// ----------------------------------------------------------------------------------------------

/// The name of a kind of node.
pub open spec fn name_of_kind(kind: NodeKind) -> Seq<char> {
    match kind {
        NodeKind::Repo => "Repo"@,
        NodeKind::Package => "Package"@,
        NodeKind::File => "File"@,
        NodeKind::Module => "Module"@,
        NodeKind::Class => "Class"@,
        NodeKind::Interface => "Interface"@,
        NodeKind::Function => "Function"@,
        NodeKind::Method => "Method"@,
        NodeKind::ApiOperation => "ApiOperation"@,
        NodeKind::GraphqlField => "GraphqlField"@,
        NodeKind::LambdaFn => "LambdaFn"@,
        NodeKind::IamRole => "IamRole"@,
        NodeKind::AppSyncApi => "AppSyncApi"@,
        NodeKind::AppSyncResolver => "AppSyncResolver"@,
        NodeKind::AppSyncDataSource => "AppSyncDataSource"@,
        NodeKind::CloudResource => "CloudResource"@,
        NodeKind::CloudAction => "CloudAction"@,
        NodeKind::Table => "Table"@,
        NodeKind::Column => "Column"@,
        NodeKind::Doc => "Doc"@,
        NodeKind::DocSection => "DocSection"@,
    }
}

/// The name of a kind of node.
pub fn kind_name(kind: NodeKind) -> (r: String)
    ensures
        r@ == name_of_kind(kind),
{
    let s = match kind {
        NodeKind::Repo => "Repo",
        NodeKind::Package => "Package",
        NodeKind::File => "File",
        NodeKind::Module => "Module",
        NodeKind::Class => "Class",
        NodeKind::Interface => "Interface",
        NodeKind::Function => "Function",
        NodeKind::Method => "Method",
        NodeKind::ApiOperation => "ApiOperation",
        NodeKind::GraphqlField => "GraphqlField",
        NodeKind::LambdaFn => "LambdaFn",
        NodeKind::IamRole => "IamRole",
        NodeKind::AppSyncApi => "AppSyncApi",
        NodeKind::AppSyncResolver => "AppSyncResolver",
        NodeKind::AppSyncDataSource => "AppSyncDataSource",
        NodeKind::CloudResource => "CloudResource",
        NodeKind::CloudAction => "CloudAction",
        NodeKind::Table => "Table",
        NodeKind::Column => "Column",
        NodeKind::Doc => "Doc",
        NodeKind::DocSection => "DocSection",
    };
    s.to_owned()
}

/// The package that an identifier names: its second part, unless that is empty.
pub open spec fn package(uid: Seq<char>) -> Option<Seq<char>> {
    let parts = text::split_on(uid, '|');
    if parts.len() < 2 || parts[1].len() == 0 {
        None
    } else {
        Some(parts[1])
    }
}

/// The package that an identifier names.
pub fn uid_package(uid: &str) -> (r: Option<String>)
    ensures
        text::opt_view(r) == package(uid@),
{
    let parts = text::split_char(uid, '|');
    let ghost pv = text::split_on(uid@, '|');
    assert(pv.len() == parts@.len());
    if parts.len() < 2 {
        return None;
    }
    assert(pv[1] == parts@[1]@);
    if parts[1].as_str().unicode_len() == 0 {
        None
    } else {
        Some(parts[1].clone())
    }
}

/// The value of an optional repository.
pub open spec fn repo_view(repo: Option<&str>) -> Option<Seq<char>> {
    match repo {
        Some(name) => Some(name@),
        None => None,
    }
}

/// Whether an identifier is of the repository, where one is given.
pub open spec fn of_repo(uid: Seq<char>, repo: Option<Seq<char>>) -> bool {
    match repo {
        Some(want) => package(uid) == Some(want),
        None => true,
    }
}

fn in_repo(uid: &Uid, repo: Option<&str>) -> (r: bool)
    ensures
        r == of_repo(uid@, repo_view(repo)),
{
    match repo {
        Some(want) => match uid_package(uid.as_str()) {
            Some(pkg) => text::same(pkg.as_str(), want),
            None => false,
        },
        None => true,
    }
}

/// Whether the path of a node is that of a changed file: the same, or one ends in the other.
pub open spec fn paths_meet(node_path: Seq<char>, file: Seq<char>) -> bool {
    node_path == file || text::ends(node_path, file) || text::ends(file, node_path)
}

/// Whether the path of a node is that of a changed file.
pub fn path_matches(node_path: &str, file: &str) -> (r: bool)
    ensures
        r == paths_meet(node_path@, file@),
{
    text::same(node_path, file) || text::ends_with(node_path, file) || text::ends_with(file, node_path)
}

/// Whether `longer` is `shorter` behind a directory.
pub open spec fn ends_below(longer: Seq<char>, shorter: Seq<char>) -> bool {
    longer.len() > shorter.len() && text::ends(longer, shorter) && longer[longer.len() - shorter.len() - 1] == '/'
}

/// Whether a node lies in a file: neither path is empty, and they are the same up to leading
/// directories.
pub open spec fn lies_in(node_path: Seq<char>, file: Seq<char>) -> bool {
    node_path.len() > 0 && file.len() > 0 && (node_path == file || ends_below(file, node_path) || ends_below(node_path, file))
}

fn boundary_suffix(longer: &str, shorter: &str) -> (r: bool)
    ensures
        r == ends_below(longer@, shorter@),
{
    let l = text::chars_of(longer);
    let n: usize = l.len();
    let m: usize = shorter.unicode_len();
    n > m && text::ends_with(longer, shorter) && l[n - m - 1] == '/'
}

/// Whether a node lies in a file.
pub fn node_in_file(node_path: &str, file: &str) -> (r: bool)
    ensures
        r == lies_in(node_path@, file@),
{
    if node_path.unicode_len() == 0 || file.unicode_len() == 0 {
        return false;
    }
    text::same(node_path, file) || boundary_suffix(file, node_path) || boundary_suffix(node_path, file)
}

// ----------------------------------------------------------------------------------------------
// Resolving changed symbols
// ----------------------------------------------------------------------------------------------

/// The nodes among the first `n` that a changed symbol names, by qualified name or by short name.
pub open spec fn named_upto(
    nodes: Seq<NodeView>,
    sym: SymbolView,
    repo: Option<Seq<char>>,
    by_fqn: bool,
    n: nat,
) -> Seq<Seq<char>>
    decreases n,
{
    if n == 0 {
        Seq::empty()
    } else {
        let rest = named_upto(nodes, sym, repo, by_fqn, (n - 1) as nat);
        let node = nodes[n - 1];
        let name = if by_fqn {
            node.fqn
        } else {
            node.name
        };
        if name == sym.key && paths_meet(node.path, sym.file) && of_repo(node.uid, repo) {
            rest.push(node.uid)
        } else {
            rest
        }
    }
}

/// The nodes that a changed symbol names: by qualified name, or by short name where there are none.
pub open spec fn resolved(g: GraphView, sym: SymbolView, repo: Option<Seq<char>>) -> Seq<Seq<char>> {
    let by_fqn = named_upto(g.nodes, sym, repo, true, g.nodes.len());
    if by_fqn.len() > 0 {
        by_fqn
    } else {
        named_upto(g.nodes, sym, repo, false, g.nodes.len())
    }
}

fn named_nodes(graph: &Graph, sym: &ChangedSymbol, repo: Option<&str>, by_fqn: bool) -> (r: Vec<Uid>)
    ensures
        model::uid_views(r@) == named_upto(graph@.nodes, sym@, repo_view(repo), by_fqn, graph@.nodes.len()),
{
    let mut out: Vec<Uid> = Vec::new();
    assert(model::uid_views(out@) =~= Seq::<Seq<char>>::empty());
    let mut i: usize = 0;
    while i < graph.nodes.len()
        invariant
            i <= graph.nodes@.len(),
            model::uid_views(out@) == named_upto(graph@.nodes, sym@, repo_view(repo), by_fqn, i as nat),
        decreases graph.nodes@.len() - i,
    {
        let node = &graph.nodes[i];
        assert(graph@.nodes[i as int] == node@);
        let name = if by_fqn {
            node.fqn.as_str()
        } else {
            node.name.as_str()
        };
        if text::same(name, sym.key.as_str()) && path_matches(node.path.as_str(), sym.file.as_str()) && in_repo(
            &node.uid,
            repo,
        ) {
            let ghost before = model::uid_views(out@);
            out.push(node.uid.clone());
            assert(model::uid_views(out@) =~= before.push(node.uid@));
        }
        i = i + 1;
    }
    out
}

/// The nodes that a changed symbol names, within a repository where one is given.
pub fn resolve_changed_symbol_in_repo(graph: &Graph, sym: &ChangedSymbol, repo: Option<&str>) -> (r: Vec<Uid>)
    ensures
        model::uid_views(r@) == resolved(graph@, sym@, repo_view(repo)),
{
    let by_fqn = named_nodes(graph, sym, repo, true);
    assert(model::uid_views(by_fqn@).len() == by_fqn@.len());
    if by_fqn.len() > 0 {
        by_fqn
    } else {
        named_nodes(graph, sym, repo, false)
    }
}

/// The nodes whose dependents a change affects: those that the first `n` symbols name, over symbols
/// that were not added.
pub open spec fn roots_upto(g: GraphView, symbols: Seq<SymbolView>, repo: Option<Seq<char>>, n: nat) -> Seq<Seq<char>>
    decreases n,
{
    if n == 0 {
        Seq::empty()
    } else {
        let rest = roots_upto(g, symbols, repo, (n - 1) as nat);
        if symbols[n - 1].change == ChangeKind::Added {
            rest
        } else {
            rest + resolved(g, symbols[n - 1], repo)
        }
    }
}

fn append_uids(out: &mut Vec<Uid>, more: Vec<Uid>)
    ensures
        model::uid_views(final(out)@) == model::uid_views(old(out)@) + model::uid_views(more@),
{
    let ghost base = model::uid_views(out@);
    let ghost mv = model::uid_views(more@);
    assert(base + mv.take(0) =~= base);
    let mut i: usize = 0;
    while i < more.len()
        invariant
            i <= more@.len(),
            mv == model::uid_views(more@),
            model::uid_views(out@) == base + mv.take(i as int),
        decreases more@.len() - i,
    {
        let ghost before = model::uid_views(out@);
        assert(mv[i as int] == more@[i as int]@);
        out.push(more[i].clone());
        assert(model::uid_views(out@) =~= before.push(mv[i as int]));
        assert(base + mv.take(i + 1) =~= (base + mv.take(i as int)).push(mv[i as int]));
        i = i + 1;
    }
    assert(mv.take(mv.len() as int) =~= mv);
}

/// The nodes whose dependents a change affects. Nothing depends on what was just added.
pub fn impact_roots(graph: &Graph, symbols: &Vec<ChangedSymbol>, repo: Option<&str>) -> (r: Vec<Uid>)
    ensures
        model::uid_views(r@) == roots_upto(
            graph@,
            changes::symbol_views(symbols@),
            repo_view(repo),
            symbols@.len(),
        ),
{
    let ghost sv = changes::symbol_views(symbols@);
    let mut out: Vec<Uid> = Vec::new();
    assert(model::uid_views(out@) =~= Seq::<Seq<char>>::empty());
    let mut i: usize = 0;
    while i < symbols.len()
        invariant
            i <= symbols@.len(),
            sv == changes::symbol_views(symbols@),
            model::uid_views(out@) == roots_upto(graph@, sv, repo_view(repo), i as nat),
        decreases symbols@.len() - i,
    {
        let sym = &symbols[i];
        assert(sv[i as int] == sym@);
        if sym.change != ChangeKind::Added {
            append_uids(&mut out, resolve_changed_symbol_in_repo(graph, sym, repo));
        }
        i = i + 1;
    }
    out
}

// ----------------------------------------------------------------------------------------------
// Aggregation
// ----------------------------------------------------------------------------------------------

/// What is known of a node over all that it depends on.
#[derive(Clone, Copy, Debug, PartialEq, Eq, Structural)]
pub struct Best {
    pub depth: usize,
    pub confidence: u32,
    pub ambiguous: bool,
}

/// What depends on the first `n` roots.
pub open spec fn hits_upto(table: Seq<ImpactEntry>, roots: Seq<Seq<char>>, n: nat) -> Seq<HitView>
    decreases n,
{
    if n == 0 {
        Seq::empty()
    } else {
        hits_upto(table, roots, (n - 1) as nat) + hits_from(table, roots[n - 1], 0)
    }
}

/// What is known of a node with one more hit.
pub open spec fn better(known: Option<Best>, h: HitView) -> Best {
    match known {
        Some(b) => Best {
            depth: if h.depth < b.depth {
                h.depth
            } else {
                b.depth
            },
            confidence: if h.confidence > b.confidence {
                h.confidence
            } else {
                b.confidence
            },
            ambiguous: b.ambiguous || h.ambiguous,
        },
        None => Best { depth: h.depth, confidence: h.confidence, ambiguous: h.ambiguous },
    }
}

/// What is known of each node over the first `n` hits.
pub open spec fn best_upto(hits: Seq<HitView>, n: nat) -> Map<Seq<char>, Best>
    decreases n,
{
    if n == 0 {
        Map::empty()
    } else {
        let rest = best_upto(hits, (n - 1) as nat);
        let h = hits[n - 1];
        rest.insert(
            h.uid,
            better(
                if rest.dom().contains(h.uid) {
                    Some(rest[h.uid])
                } else {
                    None
                },
                h,
            ),
        )
    }
}

/// A node is known exactly when it was hit. Its depth is the least, its confidence the greatest over
/// its hits, and it is ambiguous where one of them is.
pub proof fn law_best(hits: Seq<HitView>, n: nat)
    requires
        n <= hits.len(),
    ensures
        forall|u: Seq<char>| #[trigger]
            best_upto(hits, n).dom().contains(u) <==> exists|i: int| 0 <= i < n && (#[trigger] hits[i]).uid == u,
        forall|i: int|
            0 <= i < n ==> {
                let b = best_upto(hits, n)[(#[trigger] hits[i]).uid];
                b.depth <= hits[i].depth && b.confidence >= hits[i].confidence && (hits[i].ambiguous ==> b.ambiguous)
            },
        forall|u: Seq<char>| #[trigger]
            best_upto(hits, n).dom().contains(u) ==> {
                let b = best_upto(hits, n)[u];
                &&& exists|i: int| 0 <= i < n && (#[trigger] hits[i]).uid == u && hits[i].depth == b.depth
                &&& exists|i: int| 0 <= i < n && (#[trigger] hits[i]).uid == u && hits[i].confidence == b.confidence
                &&& b.ambiguous ==> exists|i: int| 0 <= i < n && (#[trigger] hits[i]).uid == u && hits[i].ambiguous
            },
    decreases n,
{
    if n > 0 {
        let m = (n - 1) as nat;
        law_best(hits, m);
        let rest = best_upto(hits, m);
        let all = best_upto(hits, n);
        let h = hits[m as int];
        assert forall|u: Seq<char>| #[trigger] all.dom().contains(u) implies {
            let b = all[u];
            &&& exists|i: int| 0 <= i < n && (#[trigger] hits[i]).uid == u && hits[i].depth == b.depth
            &&& exists|i: int| 0 <= i < n && (#[trigger] hits[i]).uid == u && hits[i].confidence == b.confidence
            &&& b.ambiguous ==> exists|i: int| 0 <= i < n && (#[trigger] hits[i]).uid == u && hits[i].ambiguous
        } by {
            assert(hits[m as int].uid == h.uid);
            if rest.dom().contains(u) {
                let b = rest[u];
                let i1 = choose|i: int| 0 <= i < m && (#[trigger] hits[i]).uid == u && hits[i].depth == b.depth;
                let i2 = choose|i: int| 0 <= i < m && (#[trigger] hits[i]).uid == u && hits[i].confidence == b.confidence;
                assert(hits[i1].uid == u);
                assert(hits[i2].uid == u);
                if b.ambiguous {
                    let i3 = choose|i: int| 0 <= i < m && (#[trigger] hits[i]).uid == u && hits[i].ambiguous;
                    assert(hits[i3].uid == u);
                }
            }
        }
        assert forall|u: Seq<char>| #[trigger] all.dom().contains(u) <==> exists|i: int|
            0 <= i < n && (#[trigger] hits[i]).uid == u by {
            if rest.dom().contains(u) {
                let i = choose|i: int| 0 <= i < m && (#[trigger] hits[i]).uid == u;
                assert(hits[i].uid == u);
            }
            assert(hits[m as int].uid == h.uid);
        }
        assert forall|i: int| 0 <= i < n implies {
            let b = all[(#[trigger] hits[i]).uid];
            b.depth <= hits[i].depth && b.confidence >= hits[i].confidence && (hits[i].ambiguous ==> b.ambiguous)
        } by {
            if i < m {
                assert(rest.dom().contains(hits[i].uid));
            }
        }
    }
}

/// Whether a dependent will break: it is reached surely enough, and not by an ambiguity.
pub open spec fn breaks(confidence: u32, ambiguous: bool) -> bool {
    confidence >= WILL_BREAK_FLOOR && !ambiguous
}

/// Whether a dependent will break.
pub fn will_break_label(confidence: u32, ambiguous: bool) -> (r: bool)
    ensures
        r == breaks(confidence, ambiguous),
{
    confidence >= WILL_BREAK_FLOOR && !ambiguous
}

/// An affected node.
pub open spec fn affected_of(node: NodeView, uid: Seq<char>, b: Best) -> AffectedView {
    AffectedView {
        uid,
        name: node.name,
        kind: name_of_kind(node.kind),
        path: node.path,
        depth: b.depth,
        confidence: b.confidence,
        ambiguous: b.ambiguous,
        will_break: breaks(b.confidence, b.ambiguous),
    }
}

/// The affected nodes among the first `n` of some keys, over those that are in the graph.
pub open spec fn affected_upto(g: GraphView, best: Map<Seq<char>, Best>, keys: Seq<Seq<char>>, n: nat) -> Seq<
    AffectedView,
>
    decreases n,
{
    if n == 0 {
        Seq::empty()
    } else {
        let rest = affected_upto(g, best, keys, (n - 1) as nat);
        match g.node(keys[n - 1]) {
            Some(node) => rest.push(affected_of(node, keys[n - 1], best[keys[n - 1]])),
            None => rest,
        }
    }
}

/// The key by which an affected node is sorted: the surest first, then by identifier.
pub open spec fn affected_key(a: AffectedView) -> SortKeyView {
    SortKeyView { rank: (u32::MAX - a.confidence) as u64, first: a.uid, second: ""@, row: 0, col: 0 }
}

/// The keys by which affected nodes are sorted.
pub open spec fn affected_keys(s: Seq<AffectedView>) -> Seq<SortKeyView> {
    Seq::new(s.len(), |i: int| affected_key(s[i]))
}

/// The nodes that a change affects, the surest first, then by identifier.
pub open spec fn blast(g: GraphView, table: Seq<ImpactEntry>, symbols: Seq<SymbolView>, repo: Option<Seq<char>>) -> Seq<
    AffectedView,
> {
    let roots = roots_upto(g, symbols, repo, symbols.len());
    let hits = hits_upto(table, roots, roots.len());
    let best = best_upto(hits, hits.len());
    let keys = ordmap::sorted_keys(best);
    let all = affected_upto(g, best, keys, keys.len());
    order::arranged(all, order::order_of(affected_keys(all)))
}

fn collect_hits(table: &Vec<ImpactEntry>, roots: &Vec<Uid>) -> (r: Vec<ImpactHit>)
    ensures
        hit_views(r@) == hits_upto(table@, model::uid_views(roots@), roots@.len()),
{
    let ghost rv = model::uid_views(roots@);
    let mut out: Vec<ImpactHit> = Vec::new();
    assert(hit_views(out@) =~= Seq::<HitView>::empty());
    let mut i: usize = 0;
    while i < roots.len()
        invariant
            i <= roots@.len(),
            rv == model::uid_views(roots@),
            hit_views(out@) == hits_upto(table@, rv, i as nat),
        decreases roots@.len() - i,
    {
        assert(rv[i as int] == roots@[i as int]@);
        append_hits(&mut out, table, &roots[i]);
        i = i + 1;
    }
    out
}

fn append_hits(out: &mut Vec<ImpactHit>, table: &Vec<ImpactEntry>, uid: &Uid)
    ensures
        hit_views(final(out)@) == hit_views(old(out)@) + hits_from(table@, uid@, 0),
{
    let ghost base = hit_views(out@);
    let mut i: usize = 0;
    while i < table.len()
        invariant
            i <= table@.len(),
            base == hit_views(old(out)@),
            hits_from(table@, uid@, 0) == hits_from(table@, uid@, i as int),
            hit_views(out@) == base,
        decreases table@.len() - i,
    {
        if table[i].uid.same(uid) {
            let hits = &table[i].affected;
            let ghost hv = hit_views(hits@);
            assert(base + hv.take(0) =~= base);
            let mut j: usize = 0;
            while j < hits.len()
                invariant
                    j <= hits@.len(),
                    hv == hit_views(hits@),
                    hit_views(out@) == base + hv.take(j as int),
                decreases hits@.len() - j,
            {
                let h = &hits[j];
                assert(hv[j as int] == h@);
                let ghost before = hit_views(out@);
                out.push(
                    ImpactHit {
                        uid: h.uid.clone(),
                        depth: h.depth,
                        confidence: h.confidence,
                        ambiguous: h.ambiguous,
                    },
                );
                assert(hit_views(out@) =~= before.push(hv[j as int]));
                assert(base + hv.take(j + 1) =~= (base + hv.take(j as int)).push(hv[j as int]));
                j = j + 1;
            }
            assert(hv.take(hv.len() as int) =~= hv);
            return ;
        }
        i = i + 1;
    }
    assert(base + Seq::<HitView>::empty() =~= base);
}

fn gather(hits: &Vec<ImpactHit>) -> (r: OrdMap<Best>)
    ensures
        r.wf(),
        r.map() == best_upto(hit_views(hits@), hits@.len()),
{
    let ghost hv = hit_views(hits@);
    let mut m: OrdMap<Best> = OrdMap::new();
    let mut i: usize = 0;
    while i < hits.len()
        invariant
            i <= hits@.len(),
            hv == hit_views(hits@),
            m.wf(),
            m.map() == best_upto(hv, i as nat),
        decreases hits@.len() - i,
    {
        let h = &hits[i];
        assert(hv[i as int] == h@);
        let b = match m.get(h.uid.as_str()) {
            Some(known) => Best {
                depth: if h.depth < known.depth {
                    h.depth
                } else {
                    known.depth
                },
                confidence: if h.confidence > known.confidence {
                    h.confidence
                } else {
                    known.confidence
                },
                ambiguous: known.ambiguous || h.ambiguous,
            },
            None => Best { depth: h.depth, confidence: h.confidence, ambiguous: h.ambiguous },
        };
        m.insert(h.uid.0.clone(), b);
        i = i + 1;
    }
    m
}

fn affected_in(graph: &Graph, best: &OrdMap<Best>) -> (r: Vec<AffectedNode>)
    requires
        best.wf(),
    ensures
        affected_views(r@) == affected_upto(
            graph@,
            best.map(),
            ordmap::sorted_keys(best.map()),
            ordmap::sorted_keys(best.map()).len(),
        ),
{
    let ghost keys = best.key_seq();
    proof {
        ordmap::lemma_sorted_keys(*best);
    }
    let mut out: Vec<AffectedNode> = Vec::new();
    assert(affected_views(out@) =~= Seq::<AffectedView>::empty());
    let mut i: usize = 0;
    while i < best.keys.len()
        invariant
            i <= best.keys@.len(),
            best.wf(),
            keys == best.key_seq(),
            affected_views(out@) == affected_upto(graph@, best.map(), keys, i as nat),
        decreases best.keys@.len() - i,
    {
        let key = &best.keys[i];
        assert(keys[i as int] == key@);
        proof {
            best.lemma_entry(i as int);
        }
        let uid = Uid(key.clone());
        assert(uid@ == key@);
        match graph.get_node(&uid) {
            Some(node) => {
                let b = best.values[i];
                let ghost before = affected_views(out@);
                let a = AffectedNode {
                    uid: key.clone(),
                    name: node.name.clone(),
                    kind: kind_name(node.kind),
                    path: node.path.clone(),
                    depth: b.depth,
                    confidence: b.confidence,
                    ambiguous: b.ambiguous,
                    will_break: will_break_label(b.confidence, b.ambiguous),
                };
                assert(a@ == affected_of(node@, key@, b));
                out.push(a);
                assert(affected_views(out@) =~= before.push(affected_of(node@, key@, b)));
            },
            None => {},
        }
        i = i + 1;
    }
    out
}

fn sort_affected(list: &Vec<AffectedNode>) -> (r: Vec<AffectedNode>)
    ensures
        affected_views(r@) == order::arranged(
            affected_views(list@),
            order::order_of(affected_keys(affected_views(list@))),
        ),
{
    let ghost lv = affected_views(list@);
    let mut keys: Vec<SortKey> = Vec::new();
    let mut i: usize = 0;
    while i < list.len()
        invariant
            i <= list@.len(),
            keys@.len() == i,
            lv == affected_views(list@),
            forall|j: int| 0 <= j < i ==> (#[trigger] keys@[j])@ == affected_key(lv[j]),
        decreases list@.len() - i,
    {
        let a = &list[i];
        assert(lv[i as int] == a@);
        let rank: u64 = (u32::MAX - a.confidence) as u64;
        keys.push(SortKey { rank, first: a.uid.clone(), second: "".to_owned(), row: 0, col: 0 });
        i = i + 1;
    }
    assert(order::key_views(keys@) =~= affected_keys(lv));
    let at = order::sorted_positions(&keys);
    proof {
        order::lemma_order_of(affected_keys(lv), order::positions(at@));
    }
    let mut out: Vec<AffectedNode> = Vec::new();
    let mut j: usize = 0;
    while j < at.len()
        invariant
            j <= at@.len(),
            lv == affected_views(list@),
            order::stable_order(affected_keys(lv), order::positions(at@)),
            out@.len() == j,
            forall|k: int| 0 <= k < j ==> (#[trigger] out@[k])@ == lv[at@[k] as int],
        decreases at@.len() - j,
    {
        let p: usize = at[j];
        assert(order::positions(at@)[j as int] == at@[j as int]);
        assert(0 <= at@[j as int] < affected_keys(lv).len());
        assert(lv[p as int] == list@[p as int]@);
        out.push(list[p].clone());
        j = j + 1;
    }
    assert(affected_views(out@) =~= order::arranged(lv, order::positions(at@)));
    out
}

/// The nodes that a change affects, where symbols are looked for in one repository. `table` gives
/// what depends on each of the roots ([`impact_roots`]).
pub fn aggregate_impact_in_repo(
    graph: &Graph,
    symbols: &Vec<ChangedSymbol>,
    repo: Option<&str>,
    table: &Vec<ImpactEntry>,
) -> (r: Vec<AffectedNode>)
    ensures
        affected_views(r@) == blast(graph@, table@, changes::symbol_views(symbols@), repo_view(repo)),
{
    let roots = impact_roots(graph, symbols, repo);
    assert(model::uid_views(roots@).len() == roots@.len());
    let hits = collect_hits(table, &roots);
    assert(hit_views(hits@).len() == hits@.len());
    let best = gather(&hits);
    let all = affected_in(graph, &best);
    assert(changes::symbol_views(symbols@).len() == symbols@.len());
    sort_affected(&all)
}

/// The nodes that a change affects.
pub fn aggregate_impact(graph: &Graph, symbols: &Vec<ChangedSymbol>, table: &Vec<ImpactEntry>) -> (r: Vec<
    AffectedNode,
>)
    ensures
        affected_views(r@) == blast(graph@, table@, changes::symbol_views(symbols@), None),
{
    aggregate_impact_in_repo(graph, symbols, None, table)
}

// ----------------------------------------------------------------------------------------------
// Risk
// ----------------------------------------------------------------------------------------------

/// How risky a change is.
#[derive(Clone, Copy, Debug, PartialEq, Eq, Structural)]
pub enum RiskLevel {
    Low,
    Medium,
    High,
    Critical,
}

/// How risky a change is, and why.
#[derive(Debug, PartialEq, Eq)]
pub struct Risk {
    pub level: RiskLevel,
    pub reasons: Vec<String>,
}

/// The value of a [`Risk`].
#[verifier::ext_equal]
pub struct RiskView {
    pub level: RiskLevel,
    pub reasons: Seq<Seq<char>>,
}

impl View for Risk {
    type V = RiskView;

    open spec fn view(&self) -> RiskView {
        RiskView { level: self.level, reasons: text::views(self.reasons@) }
    }
}

/// What is said of a change to an operation.
pub open spec fn symbol_reason(s: SymbolView) -> Option<Seq<char>> {
    match s.contract_change {
        Some(ContractChange::Breaking) => Some(
            "breaking change to contract surface: "@ + s.key + " ("@ + (if s.change == ChangeKind::Removed {
                "removed"@
            } else {
                "modified"@
            }) + ")"@,
        ),
        Some(ContractChange::Additive) => Some(
            "additive contract change: "@ + s.key + " (new surface; existing consumers unaffected)"@,
        ),
        None => None,
    }
}

/// What is said of the first `n` changed symbols.
pub open spec fn symbol_reasons(symbols: Seq<SymbolView>, n: nat) -> Seq<Seq<char>>
    decreases n,
{
    if n == 0 {
        Seq::empty()
    } else {
        let rest = symbol_reasons(symbols, (n - 1) as nat);
        match symbol_reason(symbols[n - 1]) {
            Some(reason) => rest.push(reason),
            None => rest,
        }
    }
}

/// Whether one of the first `n` changed symbols breaks a contract.
pub open spec fn some_breaking(symbols: Seq<SymbolView>, n: int) -> bool {
    exists|i: int| 0 <= i < n && (#[trigger] symbols[i]).contract_change == Some(ContractChange::Breaking)
}

/// Whether an affected node is contract surface.
pub open spec fn is_surface(a: AffectedView) -> bool {
    a.kind == "ApiOperation"@ || a.kind == "GraphqlField"@
}

/// What is said of the contract surface among the first `n` affected nodes.
pub open spec fn surface_reasons(affected: Seq<AffectedView>, n: nat) -> Seq<Seq<char>>
    decreases n,
{
    if n == 0 {
        Seq::empty()
    } else {
        let rest = surface_reasons(affected, (n - 1) as nat);
        if is_surface(affected[n - 1]) {
            rest.push("affects contract surface: "@ + affected[n - 1].name)
        } else {
            rest
        }
    }
}

/// Whether contract surface is among the first `n` affected nodes.
pub open spec fn some_surface(affected: Seq<AffectedView>, n: int) -> bool {
    exists|i: int| 0 <= i < n && is_surface(#[trigger] affected[i])
}

/// The packages of the first `n` of some identifiers.
pub open spec fn packages_of(uids: Seq<Seq<char>>, n: nat) -> Seq<Seq<char>>
    decreases n,
{
    if n == 0 {
        Seq::empty()
    } else {
        let rest = packages_of(uids, (n - 1) as nat);
        match package(uids[n - 1]) {
            Some(pkg) => rest.push(pkg),
            None => rest,
        }
    }
}

/// The packages of the nodes that the first `n` changed symbols name.
pub open spec fn packages_upto(g: GraphView, symbols: Seq<SymbolView>, repo: Option<Seq<char>>, n: nat) -> Seq<Seq<char>>
    decreases n,
{
    if n == 0 {
        Seq::empty()
    } else {
        let uids = resolved(g, symbols[n - 1], repo);
        packages_upto(g, symbols, repo, (n - 1) as nat) + packages_of(uids, uids.len())
    }
}

/// The first affected node at or after `from` whose package is none of `packages`, with that
/// package.
pub open spec fn crossing_from(affected: Seq<AffectedView>, packages: Seq<Seq<char>>, from: int) -> Option<
    (Seq<char>, Seq<char>),
>
    decreases affected.len() - from,
{
    if from >= affected.len() {
        None
    } else {
        match package(affected[from].uid) {
            Some(pkg) => if packages.contains(pkg) {
                crossing_from(affected, packages, from + 1)
            } else {
                Some((pkg, affected[from].name))
            },
            None => crossing_from(affected, packages, from + 1),
        }
    }
}

/// Where a change leaves the packages of what was changed. Nothing is known where nothing that was
/// changed has a package.
pub open spec fn crossing(affected: Seq<AffectedView>, packages: Seq<Seq<char>>) -> Option<(Seq<char>, Seq<char>)> {
    if packages.len() == 0 {
        None
    } else {
        crossing_from(affected, packages, 0)
    }
}

/// How risky a change is: critical, or by the number of affected nodes.
pub open spec fn level_of(critical: bool, count: nat) -> RiskLevel {
    if critical {
        RiskLevel::Critical
    } else if count > MEDIUM_MAX {
        RiskLevel::High
    } else if count >= LOW_MAX {
        RiskLevel::Medium
    } else {
        RiskLevel::Low
    }
}

/// Whether a change is critical: it breaks a contract, reaches contract surface, or leaves the
/// packages of what was changed.
pub open spec fn critical(symbols: Seq<SymbolView>, affected: Seq<AffectedView>, packages: Seq<Seq<char>>) -> bool {
    some_breaking(symbols, symbols.len() as int) || some_surface(affected, affected.len() as int) || crossing(
        affected,
        packages,
    ) is Some
}

/// How risky a change is, and why.
pub open spec fn risk_of(
    g: GraphView,
    symbols: Seq<SymbolView>,
    affected: Seq<AffectedView>,
    repo: Option<Seq<char>>,
) -> RiskView {
    let packages = packages_upto(g, symbols, repo, symbols.len());
    let level = level_of(critical(symbols, affected, packages), affected.len());
    let said = symbol_reasons(symbols, symbols.len()) + surface_reasons(affected, affected.len());
    let crossed = match crossing(affected, packages) {
        Some(c) => said.push("crosses repo boundary into "@ + c.0 + ": "@ + c.1),
        None => said,
    };
    RiskView {
        level,
        reasons: crossed.push(
            text::decimal(affected.len()) + (if level == RiskLevel::Critical {
                " affected (critical override)"@
            } else {
                " affected"@
            }),
        ),
    }
}

fn say(reasons: &mut Vec<String>, reason: String)
    ensures
        text::views(final(reasons)@) == text::views(old(reasons)@).push(reason@),
{
    let ghost before = text::views(reasons@);
    let ghost rv = reason@;
    reasons.push(reason);
    assert(text::views(reasons@) =~= before.push(rv));
}

fn symbol_verdict(symbols: &Vec<ChangedSymbol>) -> (r: (bool, Vec<String>))
    ensures
        r.0 == some_breaking(changes::symbol_views(symbols@), symbols@.len() as int),
        text::views(r.1@) == symbol_reasons(changes::symbol_views(symbols@), symbols@.len()),
{
    let ghost sv = changes::symbol_views(symbols@);
    let mut breaking = false;
    let mut reasons: Vec<String> = Vec::new();
    assert(text::views(reasons@) =~= Seq::<Seq<char>>::empty());
    let mut i: usize = 0;
    while i < symbols.len()
        invariant
            i <= symbols@.len(),
            sv == changes::symbol_views(symbols@),
            breaking == some_breaking(sv, i as int),
            text::views(reasons@) == symbol_reasons(sv, i as nat),
        decreases symbols@.len() - i,
    {
        let sym = &symbols[i];
        assert(sv[i as int] == sym@);
        let ghost was = breaking;
        match sym.contract_change {
            Some(ContractChange::Breaking) => {
                breaking = true;
                let how = match sym.change {
                    ChangeKind::Removed => "removed",
                    _ => "modified",
                };
                let mut s = text::concat3("breaking change to contract surface: ", sym.key.as_str(), " (");
                s.append(how);
                s.append(")");
                say(&mut reasons, s);
            },
            Some(ContractChange::Additive) => {
                say(
                    &mut reasons,
                    text::concat3(
                        "additive contract change: ",
                        sym.key.as_str(),
                        " (new surface; existing consumers unaffected)",
                    ),
                );
            },
            None => {},
        }
        proof {
            if was {
                let k = choose|k: int|
                    0 <= k < i && (#[trigger] sv[k]).contract_change == Some(ContractChange::Breaking);
                assert(some_breaking(sv, i + 1));
            }
        }
        i = i + 1;
    }
    (breaking, reasons)
}

fn surface_verdict(affected: &Vec<AffectedNode>) -> (r: (bool, Vec<String>))
    ensures
        r.0 == some_surface(affected_views(affected@), affected@.len() as int),
        text::views(r.1@) == surface_reasons(affected_views(affected@), affected@.len()),
{
    let ghost av = affected_views(affected@);
    let mut surface = false;
    let mut reasons: Vec<String> = Vec::new();
    assert(text::views(reasons@) =~= Seq::<Seq<char>>::empty());
    let mut i: usize = 0;
    while i < affected.len()
        invariant
            i <= affected@.len(),
            av == affected_views(affected@),
            surface == some_surface(av, i as int),
            text::views(reasons@) == surface_reasons(av, i as nat),
        decreases affected@.len() - i,
    {
        let a = &affected[i];
        assert(av[i as int] == a@);
        let ghost was = surface;
        if text::same(a.kind.as_str(), "ApiOperation") || text::same(a.kind.as_str(), "GraphqlField") {
            surface = true;
            say(&mut reasons, text::concat2("affects contract surface: ", a.name.as_str()));
        }
        proof {
            if was {
                let k = choose|k: int| 0 <= k < i && is_surface(#[trigger] av[k]);
                assert(some_surface(av, i + 1));
            }
        }
        i = i + 1;
    }
    (surface, reasons)
}

/// The packages of the nodes that the changed symbols name.
pub fn changed_packages(graph: &Graph, symbols: &Vec<ChangedSymbol>, repo: Option<&str>) -> (r: Vec<String>)
    ensures
        text::views(r@) == packages_upto(
            graph@,
            changes::symbol_views(symbols@),
            repo_view(repo),
            symbols@.len(),
        ),
{
    let ghost sv = changes::symbol_views(symbols@);
    let mut out: Vec<String> = Vec::new();
    assert(text::views(out@) =~= Seq::<Seq<char>>::empty());
    let mut i: usize = 0;
    while i < symbols.len()
        invariant
            i <= symbols@.len(),
            sv == changes::symbol_views(symbols@),
            text::views(out@) == packages_upto(graph@, sv, repo_view(repo), i as nat),
        decreases symbols@.len() - i,
    {
        assert(sv[i as int] == symbols@[i as int]@);
        let uids = resolve_changed_symbol_in_repo(graph, &symbols[i], repo);
        let ghost uv = model::uid_views(uids@);
        let ghost base = text::views(out@);
        assert(base + packages_of(uv, 0) =~= base);
        let mut j: usize = 0;
        while j < uids.len()
            invariant
                j <= uids@.len(),
                uv == model::uid_views(uids@),
                text::views(out@) == base + packages_of(uv, j as nat),
            decreases uids@.len() - j,
        {
            assert(uv[j as int] == uids@[j as int]@);
            match uid_package(uids[j].as_str()) {
                Some(pkg) => {
                    say(&mut out, pkg);
                    assert(text::views(out@) =~= base + packages_of(uv, (j + 1) as nat));
                },
                None => {},
            }
            j = j + 1;
        }
        i = i + 1;
    }
    out
}

fn find_crossing(affected: &Vec<AffectedNode>, packages: &Vec<String>) -> (r: Option<(String, usize)>)
    ensures
        match r {
            Some((pkg, i)) => i < affected@.len() && crossing(affected_views(affected@), text::views(packages@)) == Some(
                (pkg@, affected@[i as int].name@),
            ),
            None => crossing(affected_views(affected@), text::views(packages@)) is None,
        },
{
    let ghost av = affected_views(affected@);
    let ghost pv = text::views(packages@);
    assert(pv.len() == packages@.len());
    if packages.len() == 0 {
        return None;
    }
    let mut i: usize = 0;
    while i < affected.len()
        invariant
            i <= affected@.len(),
            av == affected_views(affected@),
            pv == text::views(packages@),
            pv.len() > 0,
            crossing(av, pv) == crossing_from(av, pv, i as int),
        decreases affected@.len() - i,
    {
        let a = &affected[i];
        assert(av[i as int] == a@);
        match uid_package(a.uid.as_str()) {
            Some(pkg) => {
                let known = text::contains_text(packages, pkg.as_str());
                proof {
                    if known {
                        let k = choose|k: int| 0 <= k < packages@.len() && (#[trigger] packages@[k])@ == pkg@;
                        assert(pv[k] == pkg@);
                    }
                    if pv.contains(pkg@) {
                        let k = choose|k: int| 0 <= k < pv.len() && pv[k] == pkg@;
                        assert(packages@[k]@ == pkg@);
                    }
                }
                if !known {
                    return Some((pkg, i));
                }
            },
            None => {},
        }
        i = i + 1;
    }
    None
}

/// Grades a change: how risky it is, and why.
pub fn classify_risk(
    graph: &Graph,
    symbols: &Vec<ChangedSymbol>,
    affected: &Vec<AffectedNode>,
    repo: Option<&str>,
) -> (r: Risk)
    ensures
        r@ == risk_of(graph@, changes::symbol_views(symbols@), affected_views(affected@), repo_view(repo)),
{
    let ghost sv = changes::symbol_views(symbols@);
    let ghost av = affected_views(affected@);
    assert(sv.len() == symbols@.len());
    assert(av.len() == affected@.len());
    let count: usize = affected.len();
    let (breaking, mut reasons) = symbol_verdict(symbols);
    let (surface, more) = surface_verdict(affected);
    let ghost base = text::views(reasons@);
    let ghost mv = text::views(more@);
    assert(base + mv.take(0) =~= base);
    let mut i: usize = 0;
    while i < more.len()
        invariant
            i <= more@.len(),
            mv == text::views(more@),
            text::views(reasons@) == base + mv.take(i as int),
        decreases more@.len() - i,
    {
        assert(mv[i as int] == more@[i as int]@);
        say(&mut reasons, more[i].clone());
        assert(base + mv.take(i + 1) =~= (base + mv.take(i as int)).push(mv[i as int]));
        i = i + 1;
    }
    assert(mv.take(mv.len() as int) =~= mv);
    let packages = changed_packages(graph, symbols, repo);
    let crossed = find_crossing(affected, &packages);
    let crosses = crossed.is_some();
    match crossed {
        Some((pkg, at)) => {
            assert(av[at as int] == affected@[at as int]@);
            let mut s = text::concat3("crosses repo boundary into ", pkg.as_str(), ": ");
            s.append(affected[at].name.as_str());
            say(&mut reasons, s);
        },
        None => {},
    }
    let critical = breaking || surface || crosses;
    let level = if critical {
        RiskLevel::Critical
    } else if count > MEDIUM_MAX {
        RiskLevel::High
    } else if count >= LOW_MAX {
        RiskLevel::Medium
    } else {
        RiskLevel::Low
    };
    let number = text::decimal_of(count as u128);
    let tail = if critical {
        " affected (critical override)"
    } else {
        " affected"
    };
    say(&mut reasons, text::concat2(number.as_str(), tail));
    let risk = Risk { level, reasons };
    assert(risk@.reasons =~= risk_of(graph@, sv, av, repo_view(repo)).reasons);
    risk
}

/// New contract surface alone makes no change critical: without a breaking change, without contract
/// surface in reach and within the packages of what was changed, the number of affected nodes
/// decides.
pub proof fn law_additive_is_not_critical(
    g: GraphView,
    symbols: Seq<SymbolView>,
    affected: Seq<AffectedView>,
    repo: Option<Seq<char>>,
)
    requires
        forall|i: int|
            0 <= i < symbols.len() ==> (#[trigger] symbols[i]).contract_change != Some(ContractChange::Breaking),
        forall|i: int| 0 <= i < affected.len() ==> !is_surface(#[trigger] affected[i]),
        forall|i: int|
            0 <= i < affected.len() ==> (package((#[trigger] affected[i]).uid) matches Some(p) ==> packages_upto(
                g,
                symbols,
                repo,
                symbols.len(),
            ).contains(p)),
    ensures
        risk_of(g, symbols, affected, repo).level == level_of(false, affected.len()),
{
    let packages = packages_upto(g, symbols, repo, symbols.len());
    lemma_no_crossing(affected, packages, 0);
}

proof fn lemma_no_crossing(affected: Seq<AffectedView>, packages: Seq<Seq<char>>, from: int)
    requires
        0 <= from,
        forall|i: int|
            0 <= i < affected.len() ==> (package((#[trigger] affected[i]).uid) matches Some(p) ==> packages.contains(p)),
    ensures
        crossing_from(affected, packages, from) is None,
    decreases affected.len() - from,
{
    if from < affected.len() {
        lemma_no_crossing(affected, packages, from + 1);
    }
}

/// A change that breaks a contract is critical, whatever it affects.
pub proof fn law_breaking_is_critical(
    g: GraphView,
    symbols: Seq<SymbolView>,
    affected: Seq<AffectedView>,
    repo: Option<Seq<char>>,
    i: int,
)
    requires
        0 <= i < symbols.len(),
        symbols[i].contract_change == Some(ContractChange::Breaking),
    ensures
        risk_of(g, symbols, affected, repo).level == RiskLevel::Critical,
{
}

// ----------------------------------------------------------------------------------------------
// The blast radius of a file
// ----------------------------------------------------------------------------------------------

/// A symbol that a file defines.
#[derive(Debug, PartialEq, Eq)]
pub struct BlastSymbol {
    pub fqn: String,
    pub name: String,
    pub kind: String,
}

/// The value of a [`BlastSymbol`].
#[verifier::ext_equal]
pub struct BlastSymbolView {
    pub fqn: Seq<char>,
    pub name: Seq<char>,
    pub kind: Seq<char>,
}

impl View for BlastSymbol {
    type V = BlastSymbolView;

    open spec fn view(&self) -> BlastSymbolView {
        BlastSymbolView { fqn: self.fqn@, name: self.name@, kind: self.kind@ }
    }
}

/// The values of a sequence of symbols.
pub open spec fn blast_symbol_views(v: Seq<BlastSymbol>) -> Seq<BlastSymbolView> {
    Seq::new(v.len(), |i: int| v[i]@)
}

/// What editing a file affects.
#[derive(Debug, PartialEq, Eq)]
pub struct BlastReport {
    pub file: String,
    /// The symbols that the file defines, by qualified name.
    pub symbols: Vec<BlastSymbol>,
    pub affected: Vec<AffectedNode>,
    pub risk: Risk,
    /// That the file has no symbols, where it has none.
    pub note: Option<String>,
}

/// The plane of a kind of node.
pub open spec fn plane_of_kind(kind: NodeKind) -> Plane {
    match kind {
        NodeKind::ApiOperation | NodeKind::GraphqlField => Plane::Contract,
        NodeKind::LambdaFn | NodeKind::IamRole | NodeKind::AppSyncApi | NodeKind::AppSyncResolver
        | NodeKind::AppSyncDataSource | NodeKind::CloudResource => Plane::Infra,
        _ => Plane::Code,
    }
}

/// The plane of a kind of node.
pub fn plane_for_kind(kind: NodeKind) -> (r: Plane)
    ensures
        r == plane_of_kind(kind),
{
    match kind {
        NodeKind::ApiOperation | NodeKind::GraphqlField => Plane::Contract,
        NodeKind::LambdaFn | NodeKind::IamRole | NodeKind::AppSyncApi | NodeKind::AppSyncResolver
        | NodeKind::AppSyncDataSource | NodeKind::CloudResource => Plane::Infra,
        _ => Plane::Code,
    }
}

/// Whether nodes of this kind are symbols and not containers.
pub open spec fn symbol_kind(kind: NodeKind) -> bool {
    kind != NodeKind::Repo && kind != NodeKind::Package && kind != NodeKind::File
}

/// The symbols among the first `n` nodes that lie in a file.
pub open spec fn nodes_in(nodes: Seq<NodeView>, file: Seq<char>, repo: Option<Seq<char>>, n: nat) -> Seq<NodeView>
    decreases n,
{
    if n == 0 {
        Seq::empty()
    } else {
        let rest = nodes_in(nodes, file, repo, (n - 1) as nat);
        let node = nodes[n - 1];
        if symbol_kind(node.kind) && lies_in(node.path, file) && of_repo(node.uid, repo) {
            rest.push(node)
        } else {
            rest
        }
    }
}

/// The keys by which nodes are sorted: their identifiers.
pub open spec fn node_keys(s: Seq<NodeView>) -> Seq<SortKeyView> {
    Seq::new(s.len(), |i: int| SortKeyView { rank: 0, first: s[i].uid, second: ""@, row: 0, col: 0 })
}

/// The symbols that lie in a file, by identifier.
pub open spec fn file_nodes(g: GraphView, file: Seq<char>, repo: Option<Seq<char>>) -> Seq<NodeView> {
    let s = nodes_in(g.nodes, file, repo, g.nodes.len());
    order::arranged(s, order::order_of(node_keys(s)))
}

/// Nodes as modified symbols.
pub open spec fn as_modified(nodes: Seq<NodeView>) -> Seq<SymbolView> {
    Seq::new(
        nodes.len(),
        |i: int|
            changes::symbol_of(plane_of_kind(nodes[i].kind), ChangeKind::Modified, nodes[i].fqn, nodes[i].path),
    )
}

/// Nodes as the symbols of a report.
pub open spec fn as_reported(nodes: Seq<NodeView>) -> Seq<BlastSymbolView> {
    Seq::new(
        nodes.len(),
        |i: int| BlastSymbolView { fqn: nodes[i].fqn, name: nodes[i].name, kind: name_of_kind(nodes[i].kind) },
    )
}

/// The keys by which nodes are reported: their qualified names.
pub open spec fn fqn_keys(s: Seq<NodeView>) -> Seq<SortKeyView> {
    Seq::new(s.len(), |i: int| SortKeyView { rank: 0, first: s[i].fqn, second: ""@, row: 0, col: 0 })
}

/// The symbols that a report of a file lists.
pub open spec fn reported(nodes: Seq<NodeView>) -> Seq<BlastSymbolView> {
    as_reported(order::arranged(nodes, order::order_of(fqn_keys(nodes))))
}

/// The note of a file without symbols.
pub open spec fn empty_note() -> Seq<char> {
    "no indexed symbols for this file — it is new, unindexed, or not a code/contract/infra file; this is not a guarantee that nothing depends on it"@
}

/// The risk of a file without symbols.
pub open spec fn empty_risk() -> RiskView {
    RiskView { level: RiskLevel::Low, reasons: seq!["no indexed symbols (new/unindexed file)"@] }
}

pub(crate) fn sort_nodes(nodes: &Vec<Node>, by_fqn: bool) -> (r: Vec<Node>)
    ensures
        by_fqn ==> model::node_views(r@) == order::arranged(
            model::node_views(nodes@),
            order::order_of(fqn_keys(model::node_views(nodes@))),
        ),
        !by_fqn ==> model::node_views(r@) == order::arranged(
            model::node_views(nodes@),
            order::order_of(node_keys(model::node_views(nodes@))),
        ),
{
    let ghost nv = model::node_views(nodes@);
    let ghost want = if by_fqn {
        fqn_keys(nv)
    } else {
        node_keys(nv)
    };
    let mut keys: Vec<SortKey> = Vec::new();
    let mut i: usize = 0;
    while i < nodes.len()
        invariant
            i <= nodes@.len(),
            keys@.len() == i,
            nv == model::node_views(nodes@),
            want == (if by_fqn {
                fqn_keys(nv)
            } else {
                node_keys(nv)
            }),
            forall|j: int| 0 <= j < i ==> (#[trigger] keys@[j])@ == want[j],
        decreases nodes@.len() - i,
    {
        let n = &nodes[i];
        assert(nv[i as int] == n@);
        let first = if by_fqn {
            n.fqn.clone()
        } else {
            n.uid.0.clone()
        };
        keys.push(SortKey { rank: 0, first, second: "".to_owned(), row: 0, col: 0 });
        assert(keys@[i as int]@ == want[i as int]);
        i = i + 1;
    }
    assert(order::key_views(keys@) =~= want);
    let at = order::sorted_positions(&keys);
    proof {
        order::lemma_order_of(want, order::positions(at@));
    }
    let mut out: Vec<Node> = Vec::new();
    let mut j: usize = 0;
    while j < at.len()
        invariant
            j <= at@.len(),
            nv == model::node_views(nodes@),
            want.len() == nv.len(),
            order::stable_order(want, order::positions(at@)),
            out@.len() == j,
            forall|k: int| 0 <= k < j ==> (#[trigger] out@[k])@ == nv[at@[k] as int],
        decreases at@.len() - j,
    {
        let p: usize = at[j];
        assert(order::positions(at@)[j as int] == at@[j as int]);
        assert(0 <= at@[j as int] < want.len());
        assert(nv[p as int] == nodes@[p as int]@);
        out.push(nodes[p].clone());
        j = j + 1;
    }
    assert(model::node_views(out@) =~= order::arranged(nv, order::positions(at@)));
    out
}

fn collect_file_nodes(graph: &Graph, file: &str, repo: Option<&str>) -> (r: Vec<Node>)
    ensures
        model::node_views(r@) == file_nodes(graph@, file@, repo_view(repo)),
{
    let mut out: Vec<Node> = Vec::new();
    assert(model::node_views(out@) =~= Seq::<NodeView>::empty());
    let mut i: usize = 0;
    while i < graph.nodes.len()
        invariant
            i <= graph.nodes@.len(),
            model::node_views(out@) == nodes_in(graph@.nodes, file@, repo_view(repo), i as nat),
        decreases graph.nodes@.len() - i,
    {
        let node = &graph.nodes[i];
        assert(graph@.nodes[i as int] == node@);
        if node.kind != NodeKind::Repo && node.kind != NodeKind::Package && node.kind != NodeKind::File
            && node_in_file(node.path.as_str(), file) && in_repo(&node.uid, repo) {
            let ghost before = model::node_views(out@);
            out.push(node.clone());
            assert(model::node_views(out@) =~= before.push(node@));
        }
        i = i + 1;
    }
    sort_nodes(&out, false)
}

/// The symbols that a file defines, as if each were modified.
pub fn file_as_modified(graph: &Graph, file: &str, repo: Option<&str>) -> (r: Vec<ChangedSymbol>)
    ensures
        changes::symbol_views(r@) == as_modified(file_nodes(graph@, file@, repo_view(repo))),
{
    let nodes = collect_file_nodes(graph, file, repo);
    let ghost nv = model::node_views(nodes@);
    let mut out: Vec<ChangedSymbol> = Vec::new();
    let mut i: usize = 0;
    while i < nodes.len()
        invariant
            i <= nodes@.len(),
            nv == model::node_views(nodes@),
            out@.len() == i,
            forall|j: int| 0 <= j < i ==> (#[trigger] out@[j])@ == as_modified(nv)[j],
        decreases nodes@.len() - i,
    {
        let n = &nodes[i];
        assert(nv[i as int] == n@);
        out.push(ChangedSymbol::new(plane_for_kind(n.kind), ChangeKind::Modified, n.fqn.clone(), n.path.clone()));
        i = i + 1;
    }
    assert(changes::symbol_views(out@) =~= as_modified(nv));
    out
}

fn report_symbols(nodes: &Vec<Node>) -> (r: Vec<BlastSymbol>)
    ensures
        blast_symbol_views(r@) == reported(model::node_views(nodes@)),
{
    let sorted = sort_nodes(nodes, true);
    let ghost nv = model::node_views(sorted@);
    let mut out: Vec<BlastSymbol> = Vec::new();
    let mut i: usize = 0;
    while i < sorted.len()
        invariant
            i <= sorted@.len(),
            nv == model::node_views(sorted@),
            out@.len() == i,
            forall|j: int| 0 <= j < i ==> (#[trigger] out@[j])@ == as_reported(nv)[j],
        decreases sorted@.len() - i,
    {
        let n = &sorted[i];
        assert(nv[i as int] == n@);
        out.push(BlastSymbol { fqn: n.fqn.clone(), name: n.name.clone(), kind: kind_name(n.kind) });
        assert(out@[i as int]@ == as_reported(nv)[i as int]);
        i = i + 1;
    }
    assert(blast_symbol_views(out@) =~= as_reported(nv));
    out
}

/// What editing a file affects, over the symbols of one repository where one is given: the blast
/// radius and the risk of modifying every symbol that the file defines. A file without symbols is
/// said to have none. `table` gives what depends on each root ([`impact_roots`], over all
/// repositories) of the symbols ([`file_as_modified`]).
pub fn blast_for_file_in_repo(graph: &Graph, file: &str, repo: Option<&str>, table: &Vec<ImpactEntry>) -> (r: BlastReport)
    ensures
        r.file@ == file@,
        ({
            let nodes = file_nodes(graph@, file@, repo_view(repo));
            let symbols = as_modified(nodes);
            &&& blast_symbol_views(r.symbols@) == reported(nodes)
            &&& nodes.len() == 0 ==> affected_views(r.affected@).len() == 0 && r.risk@ == empty_risk()
                && text::opt_view(r.note) == Some(empty_note())
            &&& nodes.len() > 0 ==> affected_views(r.affected@) == blast(graph@, table@, symbols, None) && r.risk@
                == risk_of(graph@, symbols, affected_views(r.affected@), None) && r.note is None
        }),
{
    let nodes = collect_file_nodes(graph, file, repo);
    let symbols = file_as_modified(graph, file, repo);
    let listed = report_symbols(&nodes);
    assert(model::node_views(nodes@).len() == nodes@.len());
    if nodes.len() == 0 {
        let mut reasons: Vec<String> = Vec::new();
        reasons.push("no indexed symbols (new/unindexed file)".to_owned());
        assert(text::views(reasons@) =~= empty_risk().reasons);
        return BlastReport {
            file: file.to_owned(),
            symbols: listed,
            affected: Vec::new(),
            risk: Risk { level: RiskLevel::Low, reasons },
            note: Some(
                "no indexed symbols for this file — it is new, unindexed, or not a code/contract/infra file; this is not a guarantee that nothing depends on it".to_owned(),
            ),
        };
    }
    let affected = aggregate_impact(graph, &symbols, table);
    let risk = classify_risk(graph, &symbols, &affected, None);
    BlastReport { file: file.to_owned(), symbols: listed, affected, risk, note: None }
}

/// What editing a file affects, over all repositories.
pub fn blast_for_file(graph: &Graph, file: &str, table: &Vec<ImpactEntry>) -> (r: BlastReport)
    ensures
        r.file@ == file@,
        ({
            let nodes = file_nodes(graph@, file@, None);
            let symbols = as_modified(nodes);
            &&& blast_symbol_views(r.symbols@) == reported(nodes)
            &&& nodes.len() == 0 ==> affected_views(r.affected@).len() == 0 && r.risk@ == empty_risk()
                && text::opt_view(r.note) == Some(empty_note())
            &&& nodes.len() > 0 ==> affected_views(r.affected@) == blast(graph@, table@, symbols, None) && r.risk@
                == risk_of(graph@, symbols, affected_views(r.affected@), None) && r.note is None
        }),
{
    blast_for_file_in_repo(graph, file, None, table)
}

// ----------------------------------------------------------------------------------------------
// The report of a change
// ----------------------------------------------------------------------------------------------

/// What a set of changed files changes and affects.
#[derive(Debug, PartialEq, Eq)]
pub struct ChangeReport {
    pub scope: String,
    pub files: Vec<FileChange>,
    /// The changed symbols, by plane, file and key.
    pub symbols: Vec<ChangedSymbol>,
    /// The files that no plane claims.
    pub other_files: Vec<String>,
    pub affected: Vec<AffectedNode>,
    pub risk: Risk,
}

/// The changed files.
pub open spec fn files_of(diffs: Seq<FileDiff>) -> Seq<changes::FileChangeView> {
    Seq::new(diffs.len(), |i: int| diffs[i].change@)
}

/// What a set of changed files changes and affects. Changed symbols are looked for in one repository
/// where one is given; what they affect is looked for everywhere. `table` gives what depends on
/// each root ([`impact_roots`]) of the changed symbols ([`changes::changed_symbols`]).
pub fn detect_changes_in_repo(
    graph: &Graph,
    diffs: &Vec<FileDiff>,
    scope: ChangeScope,
    repo: Option<&str>,
    table: &Vec<ImpactEntry>,
) -> (r: ChangeReport)
    requires
        changes::valid_diffs(diffs@),
    ensures
        r.scope@ == changes::scope_name(scope),
        changes::change_views(r.files@) == files_of(diffs@),
        changes::symbol_views(r.symbols@) == changes::sorted_symbols(changes::symbols_upto(diffs@, diffs@.len())),
        order::in_order(changes::symbol_keys(changes::symbol_views(r.symbols@))),
        r.symbols@.len() == changes::symbols_upto(diffs@, diffs@.len()).len(),
        forall|x: SymbolView| #[trigger]
            changes::symbol_views(r.symbols@).contains(x) == changes::symbols_upto(diffs@, diffs@.len()).contains(x),
        order::ascending(text::views(r.other_files@)),
        forall|path: Seq<char>| #[trigger]
            text::views(r.other_files@).contains(path) == changes::is_other(diffs@, path, diffs@.len() as int),
        affected_views(r.affected@) == blast(
            graph@,
            table@,
            changes::symbol_views(r.symbols@),
            repo_view(repo),
        ),
        r.risk@ == risk_of(
            graph@,
            changes::symbol_views(r.symbols@),
            affected_views(r.affected@),
            repo_view(repo),
        ),
{
    let mut files: Vec<FileChange> = Vec::new();
    let mut i: usize = 0;
    while i < diffs.len()
        invariant
            i <= diffs@.len(),
            files@.len() == i,
            forall|j: int| 0 <= j < i ==> (#[trigger] files@[j])@ == diffs@[j].change@,
        decreases diffs@.len() - i,
    {
        files.push(diffs[i].change.clone());
        i = i + 1;
    }
    assert(changes::change_views(files@) =~= files_of(diffs@));
    let (symbols, other_files) = changes::changed_symbols(diffs);
    proof {
        changes::lemma_symbols_in_order(changes::symbols_upto(diffs@, diffs@.len()));
    }
    let affected = aggregate_impact_in_repo(graph, &symbols, repo, table);
    let risk = classify_risk(graph, &symbols, &affected, repo);
    ChangeReport { scope: scope.as_str().to_owned(), files, symbols, other_files, affected, risk }
}

/// What a set of changed files changes and affects, over all repositories.
pub fn detect_changes(
    graph: &Graph,
    diffs: &Vec<FileDiff>,
    scope: ChangeScope,
    table: &Vec<ImpactEntry>,
) -> (r: ChangeReport)
    requires
        changes::valid_diffs(diffs@),
    ensures
        r.scope@ == changes::scope_name(scope),
        changes::change_views(r.files@) == files_of(diffs@),
        changes::symbol_views(r.symbols@) == changes::sorted_symbols(changes::symbols_upto(diffs@, diffs@.len())),
        order::in_order(changes::symbol_keys(changes::symbol_views(r.symbols@))),
        r.symbols@.len() == changes::symbols_upto(diffs@, diffs@.len()).len(),
        forall|x: SymbolView| #[trigger]
            changes::symbol_views(r.symbols@).contains(x) == changes::symbols_upto(diffs@, diffs@.len()).contains(x),
        order::ascending(text::views(r.other_files@)),
        forall|path: Seq<char>| #[trigger]
            text::views(r.other_files@).contains(path) == changes::is_other(diffs@, path, diffs@.len() as int),
        affected_views(r.affected@) == blast(graph@, table@, changes::symbol_views(r.symbols@), None),
        r.risk@ == risk_of(graph@, changes::symbol_views(r.symbols@), affected_views(r.affected@), None),
{
    detect_changes_in_repo(graph, diffs, scope, None, table)
}

} // verus!
