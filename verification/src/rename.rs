//! Renaming a symbol across the files that the graph implicates.
//!
//! A name is resolved to one symbol of the code. The files that are touched are the one that
//! defines it and those of the nodes that call, import, are called or are imported; no other file
//! is, whatever names stand in it. In each of them every identifier token that is the old name is
//! replaced, with the confidence of the edge that led there.
use tree_sitter_typescript::{LANGUAGE_TSX, LANGUAGE_TYPESCRIPT};
use vstd::prelude::*;

use crate::blast;
use crate::hashing;
use crate::lang;
use crate::model;
use crate::model::{Direction, EdgeKind, EdgeView, Graph, GraphView, Neighbor, Node, NodeKind, NodeView, Uid};
use crate::order;
use crate::order::{SortKey, SortKeyView};
use crate::ordmap;
use crate::ordmap::OrdMap;
use crate::text;

verus! {

/// The confidence of an edit in the file that defines the symbol.
pub const DEF_SITE_CONFIDENCE: u32 = 950_000_000;

/// How to rename.
#[derive(Debug, PartialEq, Eq)]
pub struct RenameOptions {
    /// Write the edits. They are only planned otherwise.
    pub apply: bool,
    /// Which of several symbols of the name is meant.
    pub uid: Option<String>,
    /// Rename even where the new name is taken.
    pub force: bool,
}

impl Default for RenameOptions {
    fn default() -> (r: RenameOptions)
        ensures
            !r.apply,
            r.uid is None,
            !r.force,
    {
        RenameOptions { apply: false, uid: None, force: false }
    }
}

/// A planned edit: an identifier token to replace. Lines count from one, columns in bytes from zero.
#[derive(Debug, PartialEq, Eq)]
pub struct Edit {
    pub file: String,
    pub line: u32,
    pub col: u32,
    pub old: String,
    pub new: String,
    pub confidence: u32,
}

/// The value of an [`Edit`].
#[verifier::ext_equal]
pub struct PlannedEdit {
    pub file: Seq<char>,
    pub line: u32,
    pub col: u32,
    pub old: Seq<char>,
    pub new: Seq<char>,
    pub confidence: u32,
}

impl View for Edit {
    type V = PlannedEdit;

    open spec fn view(&self) -> PlannedEdit {
        PlannedEdit {
            file: self.file@,
            line: self.line,
            col: self.col,
            old: self.old@,
            new: self.new@,
            confidence: self.confidence,
        }
    }
}

impl Clone for Edit {
    fn clone(&self) -> (r: Edit)
        ensures
            r == *self,
    {
        Edit {
            file: self.file.clone(),
            line: self.line,
            col: self.col,
            old: self.old.clone(),
            new: self.new.clone(),
            confidence: self.confidence,
        }
    }
}

/// The values of a sequence of edits.
pub open spec fn edit_views(v: Seq<Edit>) -> Seq<PlannedEdit> {
    Seq::new(v.len(), |i: int| v[i]@)
}

/// One of several symbols that a name may mean.
#[derive(Debug, PartialEq, Eq)]
pub struct Candidate {
    pub uid: String,
    pub name: String,
    pub kind: String,
    pub path: String,
}

/// The value of a [`Candidate`].
#[verifier::ext_equal]
pub struct CandidateView {
    pub uid: Seq<char>,
    pub name: Seq<char>,
    pub kind: Seq<char>,
    pub path: Seq<char>,
}

impl View for Candidate {
    type V = CandidateView;

    open spec fn view(&self) -> CandidateView {
        CandidateView { uid: self.uid@, name: self.name@, kind: self.kind@, path: self.path@ }
    }
}

/// The values of a sequence of candidates.
pub open spec fn candidate_views(v: Seq<Candidate>) -> Seq<CandidateView> {
    Seq::new(v.len(), |i: int| v[i]@)
}

/// What came of a rename.
#[derive(Debug, PartialEq, Eq)]
pub enum RenameOutcome {
    /// The name may mean several symbols.
    Candidates { symbol: String, candidates: Vec<Candidate> },
    /// The edits, planned or written.
    Plan {
        target_uid: String,
        old: String,
        new: String,
        applied: bool,
        /// The files that edits may be in.
        implicated_files: Vec<String>,
        /// The edits, by file, line and column.
        edits: Vec<Edit>,
        reindex_recommended: bool,
    },
}

/// Why a rename failed.
#[derive(Debug, PartialEq, Eq)]
pub enum RenameError {
    NotFound(String),
    /// The name means no symbol of the code; the kind of what it means.
    NotCodeSymbol(String, String),
    /// The identifier is none of the symbols that the name may mean.
    UidNotFound(String, String),
    /// The new name is taken.
    Collision { new_name: String, count: usize, list: String },
    Io { path: String, detail: String },
}

/// The value of a [`RenameError`].
pub enum RenameFault {
    NotFound(Seq<char>),
    NotCodeSymbol(Seq<char>, Seq<char>),
    UidNotFound(Seq<char>, Seq<char>),
    Collision(Seq<char>, nat, Seq<char>),
    Io(Seq<char>, Seq<char>),
}

impl View for RenameError {
    type V = RenameFault;

    open spec fn view(&self) -> RenameFault {
        match self {
            RenameError::NotFound(name) => RenameFault::NotFound(name@),
            RenameError::NotCodeSymbol(name, kind) => RenameFault::NotCodeSymbol(name@, kind@),
            RenameError::UidNotFound(uid, name) => RenameFault::UidNotFound(uid@, name@),
            RenameError::Collision { new_name, count, list } => RenameFault::Collision(new_name@, *count as nat, list@),
            RenameError::Io { path, detail } => RenameFault::Io(path@, detail@),
        }
    }
}

/// What there is to say of a fault.
pub open spec fn fault_text(f: RenameFault) -> Seq<char> {
    match f {
        RenameFault::NotFound(name) => "symbol not found: "@ + name + " (try `strata query "@ + name + "` to search)"@,
        RenameFault::NotCodeSymbol(name, kind) =>
            "rename supports code symbols (Function/Method/Class/Interface); `"@ + name + "` is a "@ + kind
            + " — contract/infra rename is queued"@,
        RenameFault::UidNotFound(uid, name) => "uid `"@ + uid + "` did not match any candidate for `"@ + name + "`"@,
        RenameFault::Collision(new_name, count, list) => "rename would collide: "@ + text::decimal(count)
            + " existing symbol(s) already named `"@ + new_name + "` — re-run with force to proceed anyway:\n"@ + list,
        RenameFault::Io(path, detail) => "io error at "@ + path + ": "@ + detail,
    }
}

impl RenameError {
    /// What there is to say of the error.
    pub fn message(&self) -> (r: String)
        ensures
            r@ == fault_text(self@),
    {
        match self {
            RenameError::NotFound(name) => {
                let mut s = text::concat3("symbol not found: ", name.as_str(), " (try `strata query ");
                s.append(name.as_str());
                s.append("` to search)");
                s
            },
            RenameError::NotCodeSymbol(name, kind) => {
                let mut s = text::concat3(
                    "rename supports code symbols (Function/Method/Class/Interface); `",
                    name.as_str(),
                    "` is a ",
                );
                s.append(kind.as_str());
                s.append(" — contract/infra rename is queued");
                s
            },
            RenameError::UidNotFound(uid, name) => {
                let mut s = text::concat3("uid `", uid.as_str(), "` did not match any candidate for `");
                s.append(name.as_str());
                s.append("`");
                s
            },
            RenameError::Collision { new_name, count, list } => {
                let number = text::decimal_of(*count as u128);
                let mut s = text::concat3(
                    "rename would collide: ",
                    number.as_str(),
                    " existing symbol(s) already named `",
                );
                s.append(new_name.as_str());
                s.append("` — re-run with force to proceed anyway:\n");
                s.append(list.as_str());
                s
            },
            RenameError::Io { path, detail } => {
                let mut s = text::concat3("io error at ", path.as_str(), ": ");
                s.append(detail.as_str());
                s
            },
        }
    }
}

// ----------------------------------------------------------------------------------------------
// The target
// ----------------------------------------------------------------------------------------------

/// Whether nodes of this kind are symbols of the code.
pub open spec fn code_kind(kind: NodeKind) -> bool {
    kind == NodeKind::Function || kind == NodeKind::Method || kind == NodeKind::Class || kind == NodeKind::Interface
}

/// Whether nodes of this kind are symbols of the code.
pub fn is_code_target_kind(kind: NodeKind) -> (r: bool)
    ensures
        r == code_kind(kind),
{
    kind == NodeKind::Function || kind == NodeKind::Method || kind == NodeKind::Class || kind == NodeKind::Interface
}

/// The nodes among the first `n` with this name, qualified or short.
pub open spec fn matching(nodes: Seq<NodeView>, name: Seq<char>, by_fqn: bool, n: nat) -> Seq<NodeView>
    decreases n,
{
    if n == 0 {
        Seq::empty()
    } else {
        let rest = matching(nodes, name, by_fqn, (n - 1) as nat);
        if (by_fqn && nodes[n - 1].fqn == name) || (!by_fqn && nodes[n - 1].name == name) {
            rest.push(nodes[n - 1])
        } else {
            rest
        }
    }
}

/// The nodes that a name means: by qualified name, or by short name where there are none.
pub open spec fn meant(g: GraphView, name: Seq<char>) -> Seq<NodeView> {
    let by_fqn = matching(g.nodes, name, true, g.nodes.len());
    if by_fqn.len() > 0 {
        by_fqn
    } else {
        matching(g.nodes, name, false, g.nodes.len())
    }
}

/// The symbols of the code among the first `n` nodes.
pub open spec fn code_nodes(nodes: Seq<NodeView>, n: nat) -> Seq<NodeView>
    decreases n,
{
    if n == 0 {
        Seq::empty()
    } else {
        let rest = code_nodes(nodes, (n - 1) as nat);
        if code_kind(nodes[n - 1].kind) {
            rest.push(nodes[n - 1])
        } else {
            rest
        }
    }
}

/// The place of the first node at or after `from` with this identifier, or -1.
pub open spec fn place_of(nodes: Seq<NodeView>, uid: Seq<char>, from: int) -> int
    decreases nodes.len() - from,
{
    if from >= nodes.len() {
        -1
    } else if nodes[from].uid == uid {
        from
    } else {
        place_of(nodes, uid, from + 1)
    }
}

/// A symbol to rename.
#[derive(Debug, PartialEq, Eq)]
pub struct TargetNode {
    pub uid: Uid,
    pub path: String,
}

/// What a name means.
#[derive(Debug, PartialEq, Eq)]
pub enum TargetResolution {
    One(TargetNode),
    Many(Vec<Candidate>),
}

/// The value of what a name means.
pub enum TargetMeaning {
    /// The identifier and the path of the symbol.
    One(Seq<char>, Seq<char>),
    Many(Seq<CandidateView>),
    Fault(RenameFault),
}

/// Nodes as candidates.
pub open spec fn as_candidates(nodes: Seq<NodeView>) -> Seq<CandidateView> {
    Seq::new(
        nodes.len(),
        |i: int|
            CandidateView {
                uid: nodes[i].uid,
                name: nodes[i].name,
                kind: blast::name_of_kind(nodes[i].kind),
                path: nodes[i].path,
            },
    )
}

/// Nodes by identifier.
pub open spec fn by_uid(nodes: Seq<NodeView>) -> Seq<NodeView> {
    order::arranged(nodes, order::order_of(blast::node_keys(nodes)))
}

/// What a name means: the symbol that it is, the one with the identifier, or the several that it may
/// be.
pub open spec fn meaning(g: GraphView, name: Seq<char>, uid: Option<Seq<char>>) -> TargetMeaning {
    let found = meant(g, name);
    let code = code_nodes(found, found.len());
    if found.len() == 0 {
        TargetMeaning::Fault(RenameFault::NotFound(name))
    } else if code.len() == 0 {
        TargetMeaning::Fault(RenameFault::NotCodeSymbol(name, blast::name_of_kind(found[0].kind)))
    } else {
        match uid {
            Some(u) => {
                let at = place_of(code, u, 0);
                if at < 0 {
                    TargetMeaning::Fault(RenameFault::UidNotFound(u, name))
                } else {
                    TargetMeaning::One(code[at].uid, code[at].path)
                }
            },
            None => if code.len() == 1 {
                TargetMeaning::One(code[0].uid, code[0].path)
            } else {
                TargetMeaning::Many(as_candidates(by_uid(code)))
            },
        }
    }
}

/// The value of a resolution.
pub open spec fn meaning_of(r: Result<TargetResolution, RenameError>) -> TargetMeaning {
    match r {
        Ok(TargetResolution::One(t)) => TargetMeaning::One(t.uid@, t.path@),
        Ok(TargetResolution::Many(c)) => TargetMeaning::Many(candidate_views(c@)),
        Err(e) => TargetMeaning::Fault(e@),
    }
}

fn nodes_matching(graph: &Graph, name: &str, by_fqn: bool) -> (r: Vec<Node>)
    ensures
        model::node_views(r@) == matching(graph@.nodes, name@, by_fqn, graph@.nodes.len()),
{
    let mut out: Vec<Node> = Vec::new();
    assert(model::node_views(out@) =~= Seq::<NodeView>::empty());
    let mut i: usize = 0;
    while i < graph.nodes.len()
        invariant
            i <= graph.nodes@.len(),
            model::node_views(out@) == matching(graph@.nodes, name@, by_fqn, i as nat),
        decreases graph.nodes@.len() - i,
    {
        let node = &graph.nodes[i];
        assert(graph@.nodes[i as int] == node@);
        let its = if by_fqn {
            node.fqn.as_str()
        } else {
            node.name.as_str()
        };
        if text::same(its, name) {
            let ghost before = model::node_views(out@);
            out.push(node.clone());
            assert(model::node_views(out@) =~= before.push(node@));
        }
        i = i + 1;
    }
    out
}

fn code_only(nodes: &Vec<Node>) -> (r: Vec<Node>)
    ensures
        model::node_views(r@) == code_nodes(model::node_views(nodes@), nodes@.len()),
{
    let ghost nv = model::node_views(nodes@);
    let mut out: Vec<Node> = Vec::new();
    assert(model::node_views(out@) =~= Seq::<NodeView>::empty());
    let mut i: usize = 0;
    while i < nodes.len()
        invariant
            i <= nodes@.len(),
            nv == model::node_views(nodes@),
            model::node_views(out@) == code_nodes(nv, i as nat),
        decreases nodes@.len() - i,
    {
        let node = &nodes[i];
        assert(nv[i as int] == node@);
        if is_code_target_kind(node.kind) {
            let ghost before = model::node_views(out@);
            out.push(node.clone());
            assert(model::node_views(out@) =~= before.push(node@));
        }
        i = i + 1;
    }
    out
}

fn find_place(nodes: &Vec<Node>, uid: &str) -> (r: Option<usize>)
    ensures
        match r {
            Some(i) => i < nodes@.len() && place_of(model::node_views(nodes@), uid@, 0) == i,
            None => place_of(model::node_views(nodes@), uid@, 0) < 0,
        },
{
    let ghost nv = model::node_views(nodes@);
    let mut i: usize = 0;
    while i < nodes.len()
        invariant
            i <= nodes@.len(),
            nv == model::node_views(nodes@),
            place_of(nv, uid@, 0) == place_of(nv, uid@, i as int),
        decreases nodes@.len() - i,
    {
        assert(nv[i as int] == nodes@[i as int]@);
        if text::same(nodes[i].uid.as_str(), uid) {
            return Some(i);
        }
        i = i + 1;
    }
    None
}

fn candidates_of(nodes: &Vec<Node>) -> (r: Vec<Candidate>)
    ensures
        candidate_views(r@) == as_candidates(by_uid(model::node_views(nodes@))),
{
    let sorted = blast::sort_nodes(nodes, false);
    let ghost nv = model::node_views(sorted@);
    let mut out: Vec<Candidate> = Vec::new();
    let mut i: usize = 0;
    while i < sorted.len()
        invariant
            i <= sorted@.len(),
            nv == model::node_views(sorted@),
            out@.len() == i,
            forall|j: int| 0 <= j < i ==> (#[trigger] out@[j])@ == as_candidates(nv)[j],
        decreases sorted@.len() - i,
    {
        let n = &sorted[i];
        assert(nv[i as int] == n@);
        out.push(
            Candidate {
                uid: n.uid.0.clone(),
                name: n.name.clone(),
                kind: blast::kind_name(n.kind),
                path: n.path.clone(),
            },
        );
        assert(out@[i as int]@ == as_candidates(nv)[i as int]);
        i = i + 1;
    }
    assert(candidate_views(out@) =~= as_candidates(nv));
    out
}

/// What a name means among the symbols of the code.
pub fn resolve_code_target(graph: &Graph, old_name: &str, uid: Option<&str>) -> (r: Result<
    TargetResolution,
    RenameError,
>)
    ensures
        meaning_of(r) == meaning(graph@, old_name@, blast::repo_view(uid)),
{
    let by_fqn = nodes_matching(graph, old_name, true);
    assert(model::node_views(by_fqn@).len() == by_fqn@.len());
    let found = if by_fqn.len() > 0 {
        by_fqn
    } else {
        nodes_matching(graph, old_name, false)
    };
    let ghost fv = model::node_views(found@);
    assert(fv.len() == found@.len());
    if found.len() == 0 {
        return Err(RenameError::NotFound(old_name.to_owned()));
    }
    let code = code_only(&found);
    let ghost cv = model::node_views(code@);
    assert(cv.len() == code@.len());
    if code.len() == 0 {
        assert(fv[0] == found@[0]@);
        return Err(RenameError::NotCodeSymbol(old_name.to_owned(), blast::kind_name(found[0].kind)));
    }
    match uid {
        Some(u) => match find_place(&code, u) {
            Some(i) => {
                assert(cv[i as int] == code@[i as int]@);
                Ok(TargetResolution::One(TargetNode { uid: code[i].uid.clone(), path: code[i].path.clone() }))
            },
            None => Err(RenameError::UidNotFound(u.to_owned(), old_name.to_owned())),
        },
        None => {
            if code.len() == 1 {
                assert(cv[0] == code@[0]@);
                Ok(TargetResolution::One(TargetNode { uid: code[0].uid.clone(), path: code[0].path.clone() }))
            } else {
                Ok(TargetResolution::Many(candidates_of(&code)))
            }
        },
    }
}

// ----------------------------------------------------------------------------------------------
// Collisions
// ----------------------------------------------------------------------------------------------

/// The nodes that have a name already, by identifier.
pub open spec fn colliding(g: GraphView, name: Seq<char>) -> Seq<NodeView> {
    by_uid(matching(g.nodes, name, false, g.nodes.len()))
}

/// The nodes that have a name already, by identifier.
pub fn collisions_for(graph: &Graph, new_name: &str) -> (r: Vec<Node>)
    ensures
        model::node_views(r@) == colliding(graph@, new_name@),
{
    let found = nodes_matching(graph, new_name, false);
    blast::sort_nodes(&found, false)
}

/// Nodes as a list to read: a line for each, with its name and its path.
pub open spec fn listed(nodes: Seq<NodeView>) -> Seq<char> {
    text::joined(
        Seq::new(nodes.len(), |i: int| "  - "@ + nodes[i].name + " ("@ + nodes[i].path + ")"@),
        "\n"@,
    )
}

fn list_nodes_text(nodes: &Vec<Node>) -> (r: String)
    ensures
        r@ == listed(model::node_views(nodes@)),
{
    let ghost nv = model::node_views(nodes@);
    let ghost want = Seq::new(nv.len(), |i: int| "  - "@ + nv[i].name + " ("@ + nv[i].path + ")"@);
    let mut lines: Vec<String> = Vec::new();
    let mut i: usize = 0;
    while i < nodes.len()
        invariant
            i <= nodes@.len(),
            nv == model::node_views(nodes@),
            want == Seq::new(nv.len(), |i: int| "  - "@ + nv[i].name + " ("@ + nv[i].path + ")"@),
            lines@.len() == i,
            forall|j: int| 0 <= j < i ==> (#[trigger] lines@[j])@ == want[j],
        decreases nodes@.len() - i,
    {
        let n = &nodes[i];
        assert(nv[i as int] == n@);
        let mut s = text::concat3("  - ", n.name.as_str(), " (");
        s.append(n.path.as_str());
        s.append(")");
        lines.push(s);
        i = i + 1;
    }
    assert(text::views(lines@) =~= want);
    text::join(&lines, "\n")
}

// ----------------------------------------------------------------------------------------------
// Implicated files
// ----------------------------------------------------------------------------------------------

/// The edges that imply that the name of the target stands in the other file.
pub open spec fn reference_kinds() -> Seq<EdgeKind> {
    seq![EdgeKind::Calls, EdgeKind::Imports]
}

/// The files with one more, which keeps its greater confidence.
pub open spec fn bumped(files: Map<Seq<char>, u32>, path: Seq<char>, confidence: u32) -> Map<Seq<char>, u32> {
    if files.dom().contains(path) && files[path] >= confidence {
        files
    } else {
        files.insert(path, confidence)
    }
}

/// The files with those of the first `n` neighbours.
pub open spec fn with_neighbors(files: Map<Seq<char>, u32>, neighbors: Seq<(EdgeView, NodeView)>, n: nat) -> Map<
    Seq<char>,
    u32,
>
    decreases n,
{
    if n == 0 {
        files
    } else {
        let rest = with_neighbors(files, neighbors, (n - 1) as nat);
        let e = neighbors[n - 1].0;
        let node = neighbors[n - 1].1;
        if node.path.len() == 0 {
            rest
        } else {
            bumped(rest, node.path, e.confidence)
        }
    }
}

/// The files that a rename touches, each with its greatest confidence: the one that defines the
/// target, and those of the nodes that refer to it or that it refers to.
pub open spec fn implicated(g: GraphView, uid: Seq<char>, path: Seq<char>) -> Map<Seq<char>, u32> {
    let out = model::neighbors_upto(g, uid, Direction::Outgoing, reference_kinds(), g.edges.len());
    let into = model::neighbors_upto(g, uid, Direction::Incoming, reference_kinds(), g.edges.len());
    with_neighbors(
        with_neighbors(bumped(Map::empty(), path, DEF_SITE_CONFIDENCE), out, out.len()),
        into,
        into.len(),
    )
}

fn bump_file(files: &mut OrdMap<u32>, path: &str, confidence: u32)
    requires
        old(files).wf(),
    ensures
        final(files).wf(),
        final(files).map() == bumped(old(files).map(), path@, confidence),
{
    let keep = match files.get(path) {
        Some(c) => *c >= confidence,
        None => false,
    };
    if !keep {
        files.insert(path.to_owned(), confidence);
    }
}

fn bump_neighbors(files: &mut OrdMap<u32>, neighbors: &Vec<Neighbor>)
    requires
        old(files).wf(),
    ensures
        final(files).wf(),
        final(files).map() == with_neighbors(old(files).map(), model::neighbor_views(neighbors@), neighbors@.len()),
{
    let ghost start = files.map();
    let ghost nv = model::neighbor_views(neighbors@);
    let mut i: usize = 0;
    while i < neighbors.len()
        invariant
            i <= neighbors@.len(),
            files.wf(),
            nv == model::neighbor_views(neighbors@),
            files.map() == with_neighbors(start, nv, i as nat),
        decreases neighbors@.len() - i,
    {
        let n = &neighbors[i];
        assert(nv[i as int] == (n.edge@, n.node@));
        if n.node.path.as_str().unicode_len() > 0 {
            bump_file(files, n.node.path.as_str(), n.edge.confidence.billionths);
        }
        i = i + 1;
    }
}

/// The files that a rename touches, each with its confidence.
pub fn implicated_files(graph: &Graph, target: &TargetNode) -> (r: OrdMap<u32>)
    ensures
        r.wf(),
        r.map() == implicated(graph@, target.uid@, target.path@),
{
    let mut kinds: Vec<EdgeKind> = Vec::new();
    kinds.push(EdgeKind::Calls);
    kinds.push(EdgeKind::Imports);
    assert(kinds@ =~= reference_kinds());
    let mut files: OrdMap<u32> = OrdMap::new();
    bump_file(&mut files, target.path.as_str(), DEF_SITE_CONFIDENCE);
    let out = graph.neighbors(&target.uid, Direction::Outgoing, &kinds);
    assert(model::neighbor_views(out@).len() == out@.len());
    bump_neighbors(&mut files, &out);
    let into = graph.neighbors(&target.uid, Direction::Incoming, &kinds);
    assert(model::neighbor_views(into@).len() == into@.len());
    bump_neighbors(&mut files, &into);
    files
}

proof fn lemma_with_neighbors(files: Map<Seq<char>, u32>, neighbors: Seq<(EdgeView, NodeView)>, n: nat)
    requires
        n <= neighbors.len(),
    ensures
        forall|p: Seq<char>| #[trigger]
            with_neighbors(files, neighbors, n).dom().contains(p) <==> files.dom().contains(p) || exists|i: int|
                0 <= i < n && (#[trigger] neighbors[i]).1.path == p && p.len() > 0,
        forall|p: Seq<char>| #[trigger]
            files.dom().contains(p) ==> with_neighbors(files, neighbors, n)[p] >= files[p],
        forall|i: int|
            0 <= i < n && (#[trigger] neighbors[i]).1.path.len() > 0 ==> with_neighbors(
                files,
                neighbors,
                n,
            )[neighbors[i].1.path] >= neighbors[i].0.confidence,
    decreases n,
{
    if n > 0 {
        let m = (n - 1) as nat;
        lemma_with_neighbors(files, neighbors, m);
        let rest = with_neighbors(files, neighbors, m);
        let all = with_neighbors(files, neighbors, n);
        let last = neighbors[m as int];
        assert forall|p: Seq<char>| #[trigger] all.dom().contains(p) <==> files.dom().contains(p) || exists|i: int|
            0 <= i < n && (#[trigger] neighbors[i]).1.path == p && p.len() > 0 by {
            assert(rest.dom().contains(p) <==> files.dom().contains(p) || exists|i: int|
                0 <= i < m && (#[trigger] neighbors[i]).1.path == p && p.len() > 0);
            if exists|i: int| 0 <= i < m && (#[trigger] neighbors[i]).1.path == p && p.len() > 0 {
                let i = choose|i: int| 0 <= i < m && (#[trigger] neighbors[i]).1.path == p && p.len() > 0;
                assert(neighbors[i].1.path == p);
            }
            assert(neighbors[m as int] == last);
        }
        assert forall|i: int| 0 <= i < n && (#[trigger] neighbors[i]).1.path.len() > 0 implies all[neighbors[i].1.path]
            >= neighbors[i].0.confidence by {
            if i < m {
                assert(rest.dom().contains(neighbors[i].1.path));
            }
        }
        assert forall|p: Seq<char>| #[trigger] files.dom().contains(p) implies all[p] >= files[p] by {
            assert(rest.dom().contains(p));
        }
    }
}

/// A file is implicated exactly when it defines the target or is the file of a node that calls,
/// imports, is called or is imported. Its confidence is at least that of each edge that implicates
/// it, and that of the definition is at least that of a definition.
pub proof fn law_implicated(g: GraphView, uid: Seq<char>, path: Seq<char>)
    ensures
        ({
            let out = model::neighbors_upto(g, uid, Direction::Outgoing, reference_kinds(), g.edges.len());
            let into = model::neighbors_upto(g, uid, Direction::Incoming, reference_kinds(), g.edges.len());
            let files = implicated(g, uid, path);
            &&& forall|p: Seq<char>| #[trigger]
                files.dom().contains(p) <==> p == path || (exists|i: int|
                    0 <= i < out.len() && (#[trigger] out[i]).1.path == p && p.len() > 0) || (exists|i: int|
                    0 <= i < into.len() && (#[trigger] into[i]).1.path == p && p.len() > 0)
            &&& files[path] >= DEF_SITE_CONFIDENCE
            &&& forall|i: int|
                0 <= i < out.len() && (#[trigger] out[i]).1.path.len() > 0 ==> files[out[i].1.path]
                    >= out[i].0.confidence
            &&& forall|i: int|
                0 <= i < into.len() && (#[trigger] into[i]).1.path.len() > 0 ==> files[into[i].1.path]
                    >= into[i].0.confidence
        }),
{
    let out = model::neighbors_upto(g, uid, Direction::Outgoing, reference_kinds(), g.edges.len());
    let into = model::neighbors_upto(g, uid, Direction::Incoming, reference_kinds(), g.edges.len());
    let start = bumped(Map::empty(), path, DEF_SITE_CONFIDENCE);
    let mid = with_neighbors(start, out, out.len());
    lemma_with_neighbors(start, out, out.len());
    lemma_with_neighbors(mid, into, into.len());
    let files = implicated(g, uid, path);
    assert(start.dom().contains(path));
    assert(mid.dom().contains(path));
    assert forall|i: int| 0 <= i < out.len() && (#[trigger] out[i]).1.path.len() > 0 implies files[out[i].1.path]
        >= out[i].0.confidence by {
        assert(mid.dom().contains(out[i].1.path));
    }
    assert forall|p: Seq<char>| #[trigger] files.dom().contains(p) <==> p == path || (exists|i: int|
        0 <= i < out.len() && (#[trigger] out[i]).1.path == p && p.len() > 0) || (exists|i: int|
        0 <= i < into.len() && (#[trigger] into[i]).1.path == p && p.len() > 0) by {
        assert(mid.dom().contains(p) <==> start.dom().contains(p) || exists|i: int|
            0 <= i < out.len() && (#[trigger] out[i]).1.path == p && p.len() > 0);
    }
}

// ----------------------------------------------------------------------------------------------
// Identifier tokens
// ----------------------------------------------------------------------------------------------

/// The grammar that a file is parsed with.
#[derive(Clone, Copy, Debug, PartialEq, Eq, Structural)]
pub enum Grammar {
    TypeScript,
    Tsx,
    JavaScript,
    Python,
    CSharp,
    Rust,
}

/// The grammar of a file, by its extension.
pub open spec fn grammar_of(file: Seq<char>) -> Option<Grammar> {
    let ext = lang::extension(file);
    match lang::language(file) {
        None => None,
        Some(l) => if l == "ts"@ {
            if ext == "tsx"@ {
                Some(Grammar::Tsx)
            } else if ext == "js"@ || ext == "jsx"@ || ext == "mjs"@ || ext == "cjs"@ {
                Some(Grammar::JavaScript)
            } else {
                Some(Grammar::TypeScript)
            }
        } else if l == "py"@ {
            Some(Grammar::Python)
        } else if l == "cs"@ {
            Some(Grammar::CSharp)
        } else if l == "rust"@ {
            Some(Grammar::Rust)
        } else {
            None
        },
    }
}

/// The grammar of a file.
pub fn grammar_for(file: &str) -> (r: Option<Grammar>)
    ensures
        r == grammar_of(file@),
{
    let ext = lang::extension_of(file);
    let e = ext.as_str();
    match lang::code_language_of(file) {
        None => None,
        Some(l) => {
            if text::same(l, "ts") {
                if text::same(e, "tsx") {
                    Some(Grammar::Tsx)
                } else if text::same(e, "js") || text::same(e, "jsx") || text::same(e, "mjs") || text::same(e, "cjs") {
                    Some(Grammar::JavaScript)
                } else {
                    Some(Grammar::TypeScript)
                }
            } else if text::same(l, "py") {
                Some(Grammar::Python)
            } else if text::same(l, "cs") {
                Some(Grammar::CSharp)
            } else if text::same(l, "rust") {
                Some(Grammar::Rust)
            } else {
                None
            }
        },
    }
}

/// A node of a syntax tree: its kind, how many children it has, which bytes it covers, and where it
/// starts.
#[derive(Debug, PartialEq, Eq)]
pub struct SyntaxNode {
    pub kind: String,
    pub children: usize,
    pub start: usize,
    pub end: usize,
    pub row: usize,
    pub column: usize,
}

/// The value of a [`SyntaxNode`].
#[verifier::ext_equal]
pub struct SyntaxView {
    pub kind: Seq<char>,
    pub children: usize,
    pub start: usize,
    pub end: usize,
    pub row: usize,
    pub column: usize,
}

impl View for SyntaxNode {
    type V = SyntaxView;

    open spec fn view(&self) -> SyntaxView {
        SyntaxView {
            kind: self.kind@,
            children: self.children,
            start: self.start,
            end: self.end,
            row: self.row,
            column: self.column,
        }
    }
}

impl SyntaxNode {
    /// A node of its parts.
    pub fn new(kind: &str, children: usize, start: usize, end: usize, row: usize, column: usize) -> (r: SyntaxNode)
        ensures
            r@ == (SyntaxView { kind: kind@, children, start, end, row, column }),
    {
        SyntaxNode { kind: kind.to_owned(), children, start, end, row, column }
    }
}

/// The values of a sequence of nodes.
pub open spec fn syntax_views(v: Seq<SyntaxNode>) -> Seq<SyntaxView> {
    Seq::new(v.len(), |i: int| v[i]@)
}

/// The nodes of the syntax tree of a text under a grammar, each before its children, if there is a
/// tree.
pub uninterp spec fn syntax_nodes(grammar: Grammar, content: Seq<char>) -> Option<Seq<SyntaxView>>;

/// `tree_sitter::Parser::parse` on a text, with the language of a grammar, and every node of the
/// tree in the order of `TreeCursor::goto_descendant`. What the tree is depends on the grammar and
/// the text alone; which tree it is is left to the grammar.
#[verifier::external_body]
fn parse_syntax(grammar: Grammar, content: &str) -> (r: Option<Vec<SyntaxNode>>)
    ensures
        match r {
            Some(nodes) => syntax_nodes(grammar, content@) == Some(syntax_views(nodes@)),
            None => syntax_nodes(grammar, content@) is None,
        },
{
    let language = match grammar {
        Grammar::TypeScript => LANGUAGE_TYPESCRIPT,
        Grammar::Tsx => LANGUAGE_TSX,
        Grammar::JavaScript => tree_sitter_javascript::LANGUAGE,
        Grammar::Python => tree_sitter_python::LANGUAGE,
        Grammar::CSharp => tree_sitter_c_sharp::LANGUAGE,
        Grammar::Rust => tree_sitter_rust::LANGUAGE,
    };
    let mut parser = tree_sitter::Parser::new();
    parser.set_language(&language.into()).ok()?;
    let tree = parser.parse(content, None)?;
    let mut cursor = tree.walk();
    Some((0..tree.root_node().descendant_count()).map(|i| { cursor.goto_descendant(i); let n = cursor.node();
        let at = n.start_position();
        SyntaxNode::new(n.kind(), n.child_count(), n.start_byte(), n.end_byte(), at.row, at.column) }).collect())
}

/// The line of a row, which counts from zero.
pub open spec fn line_of(row: usize) -> u32 {
    if row < u32::MAX {
        (row + 1) as u32
    } else {
        u32::MAX
    }
}

/// A column.
pub open spec fn column_of(column: usize) -> u32 {
    if column < u32::MAX {
        column as u32
    } else {
        u32::MAX
    }
}

/// Whether a node is an identifier token with this text: it has no children, its kind is one of
/// identifiers, and the bytes that it covers are those of the text.
pub open spec fn is_token(node: SyntaxView, bytes: Seq<u8>, name: Seq<u8>) -> bool {
    &&& node.children == 0
    &&& text::ends(node.kind, "identifier"@)
    &&& node.start <= node.end <= bytes.len()
    &&& bytes.subrange(node.start as int, node.end as int) == name
}

/// Where the identifier tokens with this text stand among the first `n` nodes.
pub open spec fn tokens_upto(nodes: Seq<SyntaxView>, bytes: Seq<u8>, name: Seq<u8>, n: nat) -> Seq<(u32, u32)>
    decreases n,
{
    if n == 0 {
        Seq::empty()
    } else {
        let rest = tokens_upto(nodes, bytes, name, (n - 1) as nat);
        let node = nodes[n - 1];
        if is_token(node, bytes, name) {
            rest.push((line_of(node.row), column_of(node.column)))
        } else {
            rest
        }
    }
}

/// The keys by which positions are sorted.
pub open spec fn position_keys(s: Seq<(u32, u32)>) -> Seq<SortKeyView> {
    Seq::new(
        s.len(),
        |i: int| SortKeyView { rank: 0, first: ""@, second: ""@, row: s[i].0 as u64, col: s[i].1 as u64 },
    )
}

/// Where the identifier tokens with this text stand, by line and column.
pub open spec fn tokens_in(nodes: Seq<SyntaxView>, content: Seq<char>, name: Seq<char>) -> Seq<(u32, u32)> {
    let s = tokens_upto(nodes, hashing::utf8(content), hashing::utf8(name), nodes.len());
    order::arranged(s, order::order_of(position_keys(s)))
}

/// Where the identifier tokens with a text stand in a file: nowhere where the file has no grammar.
pub open spec fn tokens_of(file: Seq<char>, content: Seq<char>, name: Seq<char>) -> Seq<(u32, u32)> {
    match grammar_of(file) {
        Some(grammar) => match syntax_nodes(grammar, content) {
            Some(nodes) => tokens_in(nodes, content, name),
            None => Seq::empty(),
        },
        None => Seq::empty(),
    }
}

fn covers(bytes: &Vec<u8>, start: usize, end: usize, name: &Vec<u8>) -> (r: bool)
    ensures
        r == (start <= end <= bytes@.len() && bytes@.subrange(start as int, end as int) == name@),
{
    if start > end || end > bytes.len() || end - start != name.len() {
        if start <= end && end <= bytes.len() {
            assert(bytes@.subrange(start as int, end as int).len() == end - start);
        }
        return false;
    }
    let ghost part = bytes@.subrange(start as int, end as int);
    let mut i: usize = 0;
    while i < name.len()
        invariant
            i <= name@.len(),
            start <= end <= bytes@.len(),
            end - start == name@.len(),
            part == bytes@.subrange(start as int, end as int),
            forall|j: int| 0 <= j < i ==> part[j] == name@[j],
        decreases name@.len() - i,
    {
        assert(part[i as int] == bytes@[start + i]);
        if bytes[start + i] != name[i] {
            return false;
        }
        i = i + 1;
    }
    assert(part =~= name@);
    true
}

/// Where the identifier tokens with this text stand among the nodes of a syntax tree, by line and
/// column.
pub fn identifier_hits(nodes: &Vec<SyntaxNode>, content: &str, name: &str) -> (r: Vec<(u32, u32)>)
    ensures
        r@ == tokens_in(syntax_views(nodes@), content@, name@),
{
    let bytes = content.as_bytes_vec();
    let wanted = name.as_bytes_vec();
    let ghost nv = syntax_views(nodes@);
    let mut out: Vec<(u32, u32)> = Vec::new();
    let mut i: usize = 0;
    while i < nodes.len()
        invariant
            i <= nodes@.len(),
            nv == syntax_views(nodes@),
            out@ == tokens_upto(nv, bytes@, wanted@, i as nat),
        decreases nodes@.len() - i,
    {
        let node = &nodes[i];
        assert(nv[i as int] == node@);
        if node.children == 0 && text::ends_with(node.kind.as_str(), "identifier") && covers(
            &bytes,
            node.start,
            node.end,
            &wanted,
        ) {
            let line: u32 = if node.row < u32::MAX as usize {
                (node.row + 1) as u32
            } else {
                u32::MAX
            };
            let col: u32 = if node.column < u32::MAX as usize {
                node.column as u32
            } else {
                u32::MAX
            };
            out.push((line, col));
        }
        i = i + 1;
    }
    sort_hits(&out)
}

fn sort_hits(hits: &Vec<(u32, u32)>) -> (r: Vec<(u32, u32)>)
    ensures
        r@ == order::arranged(hits@, order::order_of(position_keys(hits@))),
{
    let mut keys: Vec<SortKey> = Vec::new();
    let mut i: usize = 0;
    while i < hits.len()
        invariant
            i <= hits@.len(),
            keys@.len() == i,
            forall|j: int| 0 <= j < i ==> (#[trigger] keys@[j])@ == position_keys(hits@)[j],
        decreases hits@.len() - i,
    {
        let h: (u32, u32) = hits[i];
        keys.push(
            SortKey { rank: 0, first: "".to_owned(), second: "".to_owned(), row: h.0 as u64, col: h.1 as u64 },
        );
        assert(keys@[i as int]@ == position_keys(hits@)[i as int]);
        i = i + 1;
    }
    assert(order::key_views(keys@) =~= position_keys(hits@));
    let at = order::sorted_positions(&keys);
    proof {
        order::lemma_order_of(position_keys(hits@), order::positions(at@));
    }
    let mut out: Vec<(u32, u32)> = Vec::new();
    let mut j: usize = 0;
    while j < at.len()
        invariant
            j <= at@.len(),
            order::stable_order(position_keys(hits@), order::positions(at@)),
            out@.len() == j,
            forall|k: int| 0 <= k < j ==> #[trigger] out@[k] == hits@[at@[k] as int],
        decreases at@.len() - j,
    {
        let p: usize = at[j];
        assert(order::positions(at@)[j as int] == at@[j as int]);
        assert(0 <= at@[j as int] < position_keys(hits@).len());
        out.push(hits[p]);
        j = j + 1;
    }
    assert(out@ =~= order::arranged(hits@, order::positions(at@)));
    out
}

/// Where the identifier tokens with this text stand in a file, by line, from one, and column, in
/// bytes from zero. A file that no grammar is for has none.
pub fn identifier_tokens(file: &str, content: &str, name: &str) -> (r: Vec<(u32, u32)>)
    ensures
        r@ == tokens_of(file@, content@, name@),
{
    match grammar_for(file) {
        Some(grammar) => match parse_syntax(grammar, content) {
            Some(nodes) => identifier_hits(&nodes, content, name),
            None => Vec::new(),
        },
        None => Vec::new(),
    }
}

// ----------------------------------------------------------------------------------------------
// Planning
// ----------------------------------------------------------------------------------------------

/// What came of reading a file: its text, or why it could not be read.
#[derive(Debug, PartialEq, Eq)]
pub struct FileRead {
    pub path: String,
    pub content: Result<String, String>,
}

/// What came of reading a file: the first entry for it at or after `from`.
pub open spec fn read_from(reads: Seq<FileRead>, path: Seq<char>, from: int) -> Result<Seq<char>, Seq<char>>
    decreases reads.len() - from,
{
    if from >= reads.len() {
        Err("not read"@)
    } else if reads[from].path@ == path {
        match reads[from].content {
            Ok(content) => Ok(content@),
            Err(detail) => Err(detail@),
        }
    } else {
        read_from(reads, path, from + 1)
    }
}

/// The edits of a file.
pub open spec fn edits_in(file: Seq<char>, confidence: u32, content: Seq<char>, old: Seq<char>, new: Seq<char>) -> Seq<
    PlannedEdit,
> {
    let hits = tokens_of(file, content, old);
    Seq::new(
        hits.len(),
        |i: int| PlannedEdit { file, line: hits[i].0, col: hits[i].1, old, new, confidence },
    )
}

/// The edits of the first `n` files. Where the rename is to be applied, a file that could not be read
/// is a fault; where it is only planned, the file has no edits.
pub open spec fn edits_upto(
    files: Map<Seq<char>, u32>,
    keys: Seq<Seq<char>>,
    reads: Seq<FileRead>,
    old: Seq<char>,
    new: Seq<char>,
    apply: bool,
    n: nat,
) -> Result<Seq<PlannedEdit>, RenameFault>
    decreases n,
{
    if n == 0 {
        Ok(Seq::empty())
    } else {
        let file = keys[n - 1];
        match edits_upto(files, keys, reads, old, new, apply, (n - 1) as nat) {
            Ok(rest) => match read_from(reads, file, 0) {
                Ok(content) => Ok(rest + edits_in(file, files[file], content, old, new)),
                Err(detail) => if apply {
                    Err(RenameFault::Io(file, detail))
                } else {
                    Ok(rest)
                },
            },
            Err(f) => Err(f),
        }
    }
}

/// The keys by which edits are sorted: file, line and column.
pub open spec fn edit_keys(s: Seq<PlannedEdit>) -> Seq<SortKeyView> {
    Seq::new(
        s.len(),
        |i: int|
            SortKeyView { rank: 0, first: s[i].file, second: ""@, row: s[i].line as u64, col: s[i].col as u64 },
    )
}

/// Edits by file, line and column.
pub open spec fn sorted_edits(s: Seq<PlannedEdit>) -> Seq<PlannedEdit> {
    order::arranged(s, order::order_of(edit_keys(s)))
}

/// The value of what came of a rename.
pub enum RenameView {
    Fault(RenameFault),
    Candidates(Seq<char>, Seq<CandidateView>),
    Plan { target: Seq<char>, applied: bool, files: Seq<Seq<char>>, edits: Seq<PlannedEdit> },
}

/// What comes of a rename, given what came of reading the files.
pub open spec fn renamed(
    g: GraphView,
    old: Seq<char>,
    new: Seq<char>,
    opts: RenameOptions,
    reads: Seq<FileRead>,
) -> RenameView {
    match meaning(g, old, text::opt_view(opts.uid)) {
        TargetMeaning::Fault(f) => RenameView::Fault(f),
        TargetMeaning::Many(c) => RenameView::Candidates(old, c),
        TargetMeaning::One(uid, path) => {
            let taken = colliding(g, new);
            let files = implicated(g, uid, path);
            let keys = ordmap::sorted_keys(files);
            if !opts.force && taken.len() > 0 {
                RenameView::Fault(RenameFault::Collision(new, taken.len(), listed(taken)))
            } else {
                match edits_upto(files, keys, reads, old, new, opts.apply, keys.len()) {
                    Err(f) => RenameView::Fault(f),
                    Ok(edits) => RenameView::Plan {
                        target: uid,
                        applied: opts.apply && edits.len() > 0,
                        files: keys,
                        edits: sorted_edits(edits),
                    },
                }
            }
        },
    }
}

/// Whether this is what came of a rename.
pub open spec fn is_outcome(r: Result<RenameOutcome, RenameError>, v: RenameView, old_name: Seq<char>, new_name: Seq<char>) -> bool {
    match r {
        Err(e) => v == RenameView::Fault(e@),
        Ok(RenameOutcome::Candidates { symbol, candidates }) => v == RenameView::Candidates(
            symbol@,
            candidate_views(candidates@),
        ),
        Ok(RenameOutcome::Plan { target_uid, old, new, applied, implicated_files, edits, reindex_recommended }) => {
            &&& v == (RenameView::Plan {
                target: target_uid@,
                applied,
                files: text::views(implicated_files@),
                edits: edit_views(edits@),
            })
            &&& old@ == old_name
            &&& new@ == new_name
            &&& reindex_recommended == applied
        },
    }
}

/// Sorted edits are in order, and as many as there were.
pub proof fn lemma_edits_in_order(s: Seq<PlannedEdit>)
    ensures
        order::in_order(edit_keys(sorted_edits(s))),
        sorted_edits(s).len() == s.len(),
        forall|e: PlannedEdit| #[trigger] sorted_edits(s).contains(e) == s.contains(e),
{
    let keys = edit_keys(s);
    order::law_stable_order_exists(keys);
    order::law_sorted_in_order(keys);
    order::law_sorting_keeps(s, keys);
    assert(edit_keys(sorted_edits(s)) =~= order::arranged(keys, order::order_of(keys)));
}

fn sort_edits(edits: &Vec<Edit>) -> (r: Vec<Edit>)
    ensures
        edit_views(r@) == sorted_edits(edit_views(edits@)),
{
    let ghost ev = edit_views(edits@);
    let mut keys: Vec<SortKey> = Vec::new();
    let mut i: usize = 0;
    while i < edits.len()
        invariant
            i <= edits@.len(),
            keys@.len() == i,
            ev == edit_views(edits@),
            forall|j: int| 0 <= j < i ==> (#[trigger] keys@[j])@ == edit_keys(ev)[j],
        decreases edits@.len() - i,
    {
        let e = &edits[i];
        assert(ev[i as int] == e@);
        keys.push(
            SortKey {
                rank: 0,
                first: e.file.clone(),
                second: "".to_owned(),
                row: e.line as u64,
                col: e.col as u64,
            },
        );
        assert(keys@[i as int]@ == edit_keys(ev)[i as int]);
        i = i + 1;
    }
    assert(order::key_views(keys@) =~= edit_keys(ev));
    let at = order::sorted_positions(&keys);
    proof {
        order::lemma_order_of(edit_keys(ev), order::positions(at@));
    }
    let sorted = pick_edits(edits, &at);
    assert(edit_views(sorted@) =~= order::arranged(ev, order::positions(at@)));
    sorted
}

fn pick_edits(edits: &Vec<Edit>, at: &Vec<usize>) -> (r: Vec<Edit>)
    requires
        forall|i: int| 0 <= i < at@.len() ==> #[trigger] at@[i] < edits@.len(),
    ensures
        r@.len() == at@.len(),
        forall|i: int| 0 <= i < r@.len() ==> #[trigger] r@[i] == edits@[at@[i] as int],
{
    let mut out: Vec<Edit> = Vec::new();
    let mut j: usize = 0;
    while j < at.len()
        invariant
            j <= at@.len(),
            forall|i: int| 0 <= i < at@.len() ==> #[trigger] at@[i] < edits@.len(),
            out@.len() == j,
            forall|k: int| 0 <= k < j ==> #[trigger] out@[k] == edits@[at@[k] as int],
        decreases at@.len() - j,
    {
        let p: usize = at[j];
        assert(at@[j as int] < edits@.len());
        out.push(edits[p].clone());
        j = j + 1;
    }
    out
}

fn find_read(reads: &Vec<FileRead>, path: &str) -> (r: Option<usize>)
    ensures
        match r {
            Some(i) => i < reads@.len() && read_from(reads@, path@, 0) == (match reads@[i as int].content {
                Ok(content) => Ok::<Seq<char>, Seq<char>>(content@),
                Err(detail) => Err(detail@),
            }),
            None => read_from(reads@, path@, 0) == Err::<Seq<char>, Seq<char>>("not read"@),
        },
{
    let mut i: usize = 0;
    while i < reads.len()
        invariant
            i <= reads@.len(),
            read_from(reads@, path@, 0) == read_from(reads@, path@, i as int),
        decreases reads@.len() - i,
    {
        if text::same(reads[i].path.as_str(), path) {
            return Some(i);
        }
        i = i + 1;
    }
    None
}

fn add_edits(out: &mut Vec<Edit>, file: &str, confidence: u32, content: &str, old_name: &str, new_name: &str)
    ensures
        edit_views(final(out)@) == edit_views(old(out)@) + edits_in(
            file@,
            confidence,
            content@,
            old_name@,
            new_name@,
        ),
{
    let ghost base = edit_views(out@);
    let ghost want = edits_in(file@, confidence, content@, old_name@, new_name@);
    let hits = identifier_tokens(file, content, old_name);
    assert(base + want.take(0) =~= base);
    let mut i: usize = 0;
    while i < hits.len()
        invariant
            i <= hits@.len(),
            hits@ == tokens_of(file@, content@, old_name@),
            want == edits_in(file@, confidence, content@, old_name@, new_name@),
            edit_views(out@) == base + want.take(i as int),
        decreases hits@.len() - i,
    {
        let h: (u32, u32) = hits[i];
        let ghost before = edit_views(out@);
        let e = Edit {
            file: file.to_owned(),
            line: h.0,
            col: h.1,
            old: old_name.to_owned(),
            new: new_name.to_owned(),
            confidence,
        };
        assert(e@ =~= want[i as int]);
        out.push(e);
        assert(edit_views(out@) =~= before.push(want[i as int]));
        assert(base + want.take(i + 1) =~= (base + want.take(i as int)).push(want[i as int]));
        i = i + 1;
    }
    assert(want.take(want.len() as int) =~= want);
}

fn collect_edits(
    files: &OrdMap<u32>,
    reads: &Vec<FileRead>,
    old_name: &str,
    new_name: &str,
    apply: bool,
) -> (r: Result<Vec<Edit>, RenameError>)
    requires
        files.wf(),
    ensures
        ({
            let keys = ordmap::sorted_keys(files.map());
            match r {
                Ok(edits) => edits_upto(files.map(), keys, reads@, old_name@, new_name@, apply, keys.len()) == Ok::<
                    Seq<PlannedEdit>,
                    RenameFault,
                >(edit_views(edits@)),
                Err(e) => edits_upto(files.map(), keys, reads@, old_name@, new_name@, apply, keys.len()) == Err::<
                    Seq<PlannedEdit>,
                    RenameFault,
                >(e@),
            }
        }),
{
    let ghost keys = files.key_seq();
    let ghost m = files.map();
    proof {
        ordmap::lemma_sorted_keys(*files);
    }
    let mut edits: Vec<Edit> = Vec::new();
    assert(edit_views(edits@) =~= Seq::<PlannedEdit>::empty());
    let mut i: usize = 0;
    while i < files.keys.len()
        invariant
            i <= files.keys@.len(),
            files.wf(),
            keys == files.key_seq(),
            keys == ordmap::sorted_keys(files.map()),
            m == files.map(),
            edits_upto(m, keys, reads@, old_name@, new_name@, apply, i as nat) == Ok::<Seq<PlannedEdit>, RenameFault>(
                edit_views(edits@),
            ),
        decreases files.keys@.len() - i,
    {
        let file = &files.keys[i];
        assert(keys[i as int] == file@);
        proof {
            files.lemma_entry(i as int);
        }
        let failed = match find_read(reads, file.as_str()) {
            Some(k) => match &reads[k].content {
                Ok(content) => {
                    add_edits(&mut edits, file.as_str(), files.values[i], content.as_str(), old_name, new_name);
                    None
                },
                Err(detail) => Some(detail.clone()),
            },
            None => Some("not read".to_owned()),
        };
        match failed {
            Some(detail) => if apply {
                let e = RenameError::Io { path: file.clone(), detail };
                proof {
                    assert(edits_upto(m, keys, reads@, old_name@, new_name@, apply, (i + 1) as nat) == Err::<
                        Seq<PlannedEdit>,
                        RenameFault,
                    >(e@));
                    lemma_fault_stays(m, keys, reads@, old_name@, new_name@, apply, (i + 1) as nat, keys.len());
                }
                return Err(e);
            },
            None => {},
        }
        i = i + 1;
    }
    Ok(edits)
}

proof fn lemma_fault_stays(
    files: Map<Seq<char>, u32>,
    keys: Seq<Seq<char>>,
    reads: Seq<FileRead>,
    old_name: Seq<char>,
    new_name: Seq<char>,
    apply: bool,
    n: nat,
    m: nat,
)
    requires
        n <= m,
        edits_upto(files, keys, reads, old_name, new_name, apply, n) is Err,
    ensures
        edits_upto(files, keys, reads, old_name, new_name, apply, m) == edits_upto(
            files,
            keys,
            reads,
            old_name,
            new_name,
            apply,
            n,
        ),
    decreases m,
{
    if n < m {
        lemma_fault_stays(files, keys, reads, old_name, new_name, apply, n, (m - 1) as nat);
    }
}

/// Whether the new name is taken and that matters.
fn refuse_collision(graph: &Graph, new_name: &str, force: bool) -> (r: Option<RenameError>)
    ensures
        match r {
            Some(e) => !force && colliding(graph@, new_name@).len() > 0 && e@ == RenameFault::Collision(
                new_name@,
                colliding(graph@, new_name@).len(),
                listed(colliding(graph@, new_name@)),
            ),
            None => force || colliding(graph@, new_name@).len() == 0,
        },
{
    if force {
        return None;
    }
    let taken = collisions_for(graph, new_name);
    assert(model::node_views(taken@).len() == taken@.len());
    if taken.len() == 0 {
        return None;
    }
    let list = list_nodes_text(&taken);
    Some(RenameError::Collision { new_name: new_name.to_owned(), count: taken.len(), list })
}

/// The files that a rename reads: those that it touches, where it gets that far.
pub open spec fn files_to_read(g: GraphView, old: Seq<char>, new: Seq<char>, opts: RenameOptions) -> Seq<Seq<char>> {
    match meaning(g, old, text::opt_view(opts.uid)) {
        TargetMeaning::One(uid, path) => if !opts.force && colliding(g, new).len() > 0 {
            Seq::empty()
        } else {
            ordmap::sorted_keys(implicated(g, uid, path))
        },
        _ => Seq::empty(),
    }
}

fn opt_str(x: &Option<String>) -> (r: Option<&str>)
    ensures
        blast::repo_view(r) == text::opt_view(*x),
{
    match x {
        Some(s) => Some(s.as_str()),
        None => None,
    }
}

/// The files that a rename reads.
pub fn rename_files(graph: &Graph, old_name: &str, new_name: &str, opts: &RenameOptions) -> (r: Vec<String>)
    ensures
        text::views(r@) == files_to_read(graph@, old_name@, new_name@, *opts),
{
    let none: Vec<String> = Vec::new();
    assert(text::views(none@) =~= Seq::<Seq<char>>::empty());
    match resolve_code_target(graph, old_name, opt_str(&opts.uid)) {
        Ok(TargetResolution::One(target)) => {
            if refuse_collision(graph, new_name, opts.force).is_some() {
                return none;
            }
            let files = implicated_files(graph, &target);
            proof {
                ordmap::lemma_sorted_keys(files);
            }
            text::clone_texts(&files.keys)
        },
        _ => none,
    }
}

/// Renames a symbol, given what came of reading the files ([`rename_files`]): says which symbols the
/// name may mean, or gives the edits. `applied` says that the edits are to be written
/// ([`rewrite_file`]); they are not written here. A file that could not be read is an error only where
/// the edits are to be written: a plan leaves its edits out.
pub fn rename(graph: &Graph, old_name: &str, new_name: &str, opts: &RenameOptions, reads: &Vec<FileRead>) -> (r: Result<
    RenameOutcome,
    RenameError,
>)
    ensures
        is_outcome(r, renamed(graph@, old_name@, new_name@, *opts, reads@), old_name@, new_name@),
        r matches Ok(RenameOutcome::Plan { edits, .. }) ==> order::in_order(edit_keys(edit_views(edits@))),
{
    let target = match resolve_code_target(graph, old_name, opt_str(&opts.uid)) {
        Ok(TargetResolution::One(target)) => target,
        Ok(TargetResolution::Many(candidates)) => {
            return Ok(RenameOutcome::Candidates { symbol: old_name.to_owned(), candidates });
        },
        Err(e) => {
            return Err(e);
        },
    };
    match refuse_collision(graph, new_name, opts.force) {
        Some(e) => {
            return Err(e);
        },
        None => {},
    }
    let files = implicated_files(graph, &target);
    proof {
        ordmap::lemma_sorted_keys(files);
    }
    let edits = match collect_edits(&files, reads, old_name, new_name, opts.apply) {
        Ok(edits) => edits,
        Err(e) => {
            return Err(e);
        },
    };
    assert(edit_views(edits@).len() == edits@.len());
    let applied = opts.apply && edits.len() > 0;
    let sorted = sort_edits(&edits);
    proof {
        lemma_edits_in_order(edit_views(edits@));
    }
    Ok(
        RenameOutcome::Plan {
            target_uid: target.uid.0.clone(),
            old: old_name.to_owned(),
            new: new_name.to_owned(),
            applied,
            implicated_files: text::clone_texts(&files.keys),
            edits: sorted,
            reindex_recommended: applied,
        },
    )
}

proof fn lemma_edits_in_scope(
    files: Map<Seq<char>, u32>,
    keys: Seq<Seq<char>>,
    reads: Seq<FileRead>,
    old: Seq<char>,
    new: Seq<char>,
    apply: bool,
    n: nat,
)
    requires
        n <= keys.len(),
        edits_upto(files, keys, reads, old, new, apply, n) is Ok,
    ensures
        forall|e: PlannedEdit| #[trigger]
            edits_upto(files, keys, reads, old, new, apply, n)->Ok_0.contains(e) ==> in_scope(
                files,
                keys,
                reads,
                old,
                new,
                e,
            ),
    decreases n,
{
    if n > 0 {
        let m = (n - 1) as nat;
        lemma_edits_in_scope(files, keys, reads, old, new, apply, m);
        let rest = edits_upto(files, keys, reads, old, new, apply, m)->Ok_0;
        let file = keys[m as int];
        let content = read_from(reads, file, 0)->Ok_0;
        let more = edits_in(file, files[file], content, old, new);
        let all = edits_upto(files, keys, reads, old, new, apply, n)->Ok_0;
        assert forall|e: PlannedEdit| #[trigger] all.contains(e) implies in_scope(files, keys, reads, old, new, e) by {
            let i = choose|i: int| 0 <= i < all.len() && all[i] == e;
            if i < rest.len() {
                assert(rest[i] == e);
                assert(rest.contains(e));
            } else {
                assert(read_from(reads, file, 0) is Ok);
                assert(more[i - rest.len()] == e);
                let hits = tokens_of(file, content, old);
                assert(hits[i - rest.len()] == (e.line, e.col));
                assert(hits.contains((e.line, e.col)));
                assert(keys[m as int] == e.file);
                assert(keys.contains(e.file));
            }
        }
    }
}

/// Whether an edit is within the scope of a rename: in an implicated file, with the confidence of
/// the file, from the old name to the new, at an identifier token that is the old name.
pub open spec fn in_scope(
    files: Map<Seq<char>, u32>,
    keys: Seq<Seq<char>>,
    reads: Seq<FileRead>,
    old: Seq<char>,
    new: Seq<char>,
    e: PlannedEdit,
) -> bool {
    &&& keys.contains(e.file)
    &&& e.confidence == files[e.file]
    &&& e.old == old
    &&& e.new == new
    &&& read_from(reads, e.file, 0) matches Ok(content) && tokens_of(e.file, content, old).contains((e.line, e.col))
}

/// A rename touches nothing but identifier tokens that are the old name, in implicated files: a name
/// in any other file, and the name within a text or a comment, stays.
pub proof fn law_rename_scope(g: GraphView, old: Seq<char>, new: Seq<char>, opts: RenameOptions, reads: Seq<FileRead>)
    ensures
        renamed(g, old, new, opts, reads) matches RenameView::Plan { files, edits, .. } ==> {
            let m = meaning(g, old, text::opt_view(opts.uid));
            &&& m is One
            &&& forall|e: PlannedEdit| #[trigger]
                edits.contains(e) ==> in_scope(implicated(g, m->One_0, m->One_1), files, reads, old, new, e)
        },
{
    if let RenameView::Plan { files, edits, .. } = renamed(g, old, new, opts, reads) {
        let m = meaning(g, old, text::opt_view(opts.uid));
        let map = implicated(g, m->One_0, m->One_1);
        let plain = edits_upto(map, files, reads, old, new, opts.apply, files.len())->Ok_0;
        lemma_edits_in_scope(map, files, reads, old, new, opts.apply, files.len());
        lemma_edits_in_order(plain);
    }
}

proof fn lemma_planned_edits(
    files: Map<Seq<char>, u32>,
    keys: Seq<Seq<char>>,
    reads: Seq<FileRead>,
    old: Seq<char>,
    new: Seq<char>,
    n: nat,
)
    ensures
        edits_upto(files, keys, reads, old, new, false, n) is Ok,
    decreases n,
{
    if n > 0 {
        lemma_planned_edits(files, keys, reads, old, new, (n - 1) as nat);
    }
}

/// A rename that is only planned does not fail because a file cannot be read.
pub proof fn law_planning_reads_what_it_can(
    g: GraphView,
    old: Seq<char>,
    new: Seq<char>,
    opts: RenameOptions,
    reads: Seq<FileRead>,
)
    requires
        !opts.apply,
    ensures
        renamed(g, old, new, opts, reads) matches RenameView::Fault(f) ==> !(f is Io),
{
    match meaning(g, old, text::opt_view(opts.uid)) {
        TargetMeaning::One(uid, path) => {
            let files = implicated(g, uid, path);
            let keys = ordmap::sorted_keys(files);
            lemma_planned_edits(files, keys, reads, old, new, keys.len());
        },
        _ => {},
    }
}

// ----------------------------------------------------------------------------------------------
// Rewriting
// ----------------------------------------------------------------------------------------------

/// Where the lines start that begin within the first `n` bytes, or right behind them.
pub open spec fn starts_upto(bytes: Seq<u8>, n: nat) -> Seq<int>
    decreases n,
{
    if n == 0 {
        seq![0int]
    } else {
        let rest = starts_upto(bytes, (n - 1) as nat);
        if bytes[n - 1] == 10 {
            rest.push(n as int)
        } else {
            rest
        }
    }
}

/// Where the lines of some bytes start.
pub open spec fn line_starts(bytes: Seq<u8>) -> Seq<int> {
    starts_upto(bytes, bytes.len())
}

/// Positions as numbers.
pub open spec fn as_ints(v: Seq<usize>) -> Seq<int> {
    Seq::new(v.len(), |i: int| v[i] as int)
}

fn byte_line_starts(bytes: &Vec<u8>) -> (r: Vec<usize>)
    ensures
        as_ints(r@) == line_starts(bytes@),
        r@.len() >= 1,
{
    let mut starts: Vec<usize> = Vec::new();
    starts.push(0);
    assert(as_ints(starts@) =~= seq![0int]);
    let mut i: usize = 0;
    while i < bytes.len()
        invariant
            i <= bytes@.len(),
            starts@.len() >= 1,
            as_ints(starts@) == starts_upto(bytes@, i as nat),
        decreases bytes@.len() - i,
    {
        if bytes[i] == 10 {
            let ghost before = as_ints(starts@);
            starts.push(i + 1);
            assert(as_ints(starts@) =~= before.push(i + 1));
        }
        i = i + 1;
    }
    starts
}

/// Where the lines of a text start, in bytes.
pub fn line_start_offsets(content: &str) -> (r: Vec<usize>)
    ensures
        as_ints(r@) == line_starts(hashing::utf8(content@)),
{
    byte_line_starts(&content.as_bytes_vec())
}

/// Where an edit starts: none where there is no such line.
pub open spec fn edit_start(starts: Seq<int>, e: PlannedEdit) -> Option<int> {
    let line = if e.line == 0 {
        0int
    } else {
        e.line - 1
    };
    if line < starts.len() {
        Some(starts[line] + e.col)
    } else {
        None
    }
}

/// Some bytes with an edit made. Where the old name does not stand at the place of the edit, nothing
/// is changed.
pub open spec fn with_edit(bytes: Seq<u8>, starts: Seq<int>, e: PlannedEdit) -> Seq<u8> {
    let old = hashing::utf8(e.old);
    match edit_start(starts, e) {
        Some(at) => if at + old.len() <= bytes.len() && bytes.subrange(at, at + old.len()) == old {
            bytes.take(at) + hashing::utf8(e.new) + bytes.skip(at + old.len())
        } else {
            bytes
        },
        None => bytes,
    }
}

/// Some bytes with the first `n` edits made.
pub open spec fn with_edits(bytes: Seq<u8>, starts: Seq<int>, edits: Seq<PlannedEdit>, n: nat) -> Seq<u8>
    decreases n,
{
    if n == 0 {
        bytes
    } else {
        with_edit(with_edits(bytes, starts, edits, (n - 1) as nat), starts, edits[n - 1])
    }
}

/// Those of the first `n` edits that are in a file.
pub open spec fn edits_for(edits: Seq<PlannedEdit>, file: Seq<char>, n: nat) -> Seq<PlannedEdit>
    decreases n,
{
    if n == 0 {
        Seq::empty()
    } else {
        let rest = edits_for(edits, file, (n - 1) as nat);
        if edits[n - 1].file == file {
            rest.push(edits[n - 1])
        } else {
            rest
        }
    }
}

/// The keys by which the edits of a file are made: the last first.
pub open spec fn reverse_keys(s: Seq<PlannedEdit>) -> Seq<SortKeyView> {
    Seq::new(
        s.len(),
        |i: int|
            SortKeyView {
                rank: 0,
                first: ""@,
                second: ""@,
                row: (u32::MAX - s[i].line) as u64,
                col: (u32::MAX - s[i].col) as u64,
            },
    )
}

/// The edits of a file, the last first.
pub open spec fn reversed_edits(s: Seq<PlannedEdit>) -> Seq<PlannedEdit> {
    order::arranged(s, order::order_of(reverse_keys(s)))
}

/// The bytes of a file with its edits made, the last first, so that an edit moves none that is still
/// to be made.
pub open spec fn rewritten(content: Seq<char>, edits: Seq<PlannedEdit>, file: Seq<char>) -> Seq<u8> {
    let bytes = hashing::utf8(content);
    let own = reversed_edits(edits_for(edits, file, edits.len()));
    with_edits(bytes, line_starts(bytes), own, own.len())
}

fn own_edits(edits: &Vec<Edit>, file: &str) -> (r: Vec<Edit>)
    ensures
        edit_views(r@) == edits_for(edit_views(edits@), file@, edits@.len()),
{
    let ghost ev = edit_views(edits@);
    let mut out: Vec<Edit> = Vec::new();
    assert(edit_views(out@) =~= Seq::<PlannedEdit>::empty());
    let mut i: usize = 0;
    while i < edits.len()
        invariant
            i <= edits@.len(),
            ev == edit_views(edits@),
            edit_views(out@) == edits_for(ev, file@, i as nat),
        decreases edits@.len() - i,
    {
        let e = &edits[i];
        assert(ev[i as int] == e@);
        if text::same(e.file.as_str(), file) {
            let ghost before = edit_views(out@);
            out.push(e.clone());
            assert(edit_views(out@) =~= before.push(e@));
        }
        i = i + 1;
    }
    out
}

fn reverse_edits(edits: &Vec<Edit>) -> (r: Vec<Edit>)
    ensures
        edit_views(r@) == reversed_edits(edit_views(edits@)),
{
    let ghost ev = edit_views(edits@);
    let mut keys: Vec<SortKey> = Vec::new();
    let mut i: usize = 0;
    while i < edits.len()
        invariant
            i <= edits@.len(),
            keys@.len() == i,
            ev == edit_views(edits@),
            forall|j: int| 0 <= j < i ==> (#[trigger] keys@[j])@ == reverse_keys(ev)[j],
        decreases edits@.len() - i,
    {
        let e = &edits[i];
        assert(ev[i as int] == e@);
        let row: u64 = (u32::MAX - e.line) as u64;
        let col: u64 = (u32::MAX - e.col) as u64;
        keys.push(SortKey { rank: 0, first: "".to_owned(), second: "".to_owned(), row, col });
        assert(keys@[i as int]@ == reverse_keys(ev)[i as int]);
        i = i + 1;
    }
    assert(order::key_views(keys@) =~= reverse_keys(ev));
    let at = order::sorted_positions(&keys);
    proof {
        order::lemma_order_of(reverse_keys(ev), order::positions(at@));
    }
    let sorted = pick_edits(edits, &at);
    assert(edit_views(sorted@) =~= order::arranged(ev, order::positions(at@)));
    sorted
}

fn push_bytes(out: &mut Vec<u8>, from: &Vec<u8>, lo: usize, hi: usize)
    requires
        lo <= hi <= from@.len(),
    ensures
        final(out)@ == old(out)@ + from@.subrange(lo as int, hi as int),
{
    let ghost base = out@;
    assert(base + from@.subrange(lo as int, lo as int) =~= base);
    let mut i: usize = lo;
    while i < hi
        invariant
            lo <= i <= hi <= from@.len(),
            out@ == base + from@.subrange(lo as int, i as int),
        decreases hi - i,
    {
        out.push(from[i]);
        assert(out@ =~= base + from@.subrange(lo as int, i + 1));
        i = i + 1;
    }
}

fn make_edit(bytes: Vec<u8>, starts: &Vec<usize>, e: &Edit) -> (r: Vec<u8>)
    ensures
        r@ == with_edit(bytes@, as_ints(starts@), e@),
{
    let line: usize = if e.line == 0 {
        0
    } else {
        (e.line - 1) as usize
    };
    if line >= starts.len() {
        return bytes;
    }
    assert(as_ints(starts@)[line as int] == starts@[line as int]);
    let old = e.old.as_bytes_vec();
    let new = e.new.as_bytes_vec();
    let at: u128 = starts[line] as u128 + e.col as u128;
    let end: u128 = at + old.len() as u128;
    if end > bytes.len() as u128 {
        return bytes;
    }
    let lo: usize = at as usize;
    let hi: usize = end as usize;
    if !covers(&bytes, lo, hi, &old) {
        return bytes;
    }
    let mut out: Vec<u8> = Vec::new();
    push_bytes(&mut out, &bytes, 0, lo);
    push_bytes(&mut out, &new, 0, new.len());
    push_bytes(&mut out, &bytes, hi, bytes.len());
    assert(out@ =~= bytes@.take(lo as int) + new@ + bytes@.skip(hi as int));
    out
}

/// The bytes of a file with its edits made. An edit at whose place the old name does not stand is
/// passed over.
pub fn rewrite_file(content: &str, edits: &Vec<Edit>, file: &str) -> (r: Vec<u8>)
    ensures
        r@ == rewritten(content@, edit_views(edits@), file@),
{
    let mut bytes = content.as_bytes_vec();
    let starts = byte_line_starts(&bytes);
    let own = own_edits(edits, file);
    let ordered = reverse_edits(&own);
    let ghost start = bytes@;
    let ghost sv = as_ints(starts@);
    let ghost ov = edit_views(ordered@);
    assert(edit_views(edits@).len() == edits@.len());
    let mut i: usize = 0;
    while i < ordered.len()
        invariant
            i <= ordered@.len(),
            sv == as_ints(starts@),
            ov == edit_views(ordered@),
            bytes@ == with_edits(start, sv, ov, i as nat),
        decreases ordered@.len() - i,
    {
        assert(ov[i as int] == ordered@[i as int]@);
        bytes = make_edit(bytes, &starts, &ordered[i]);
        i = i + 1;
    }
    bytes
}

/// Some bytes with what stands at each of the first `n` places, which are ascending, replaced.
pub open spec fn replaced(bytes: Seq<u8>, places: Seq<int>, len: nat, new: Seq<u8>, n: nat) -> Seq<u8>
    decreases n,
{
    if n == 0 {
        bytes
    } else {
        let at = places[n - 1];
        replaced(bytes.take(at), places, len, new, (n - 1) as nat) + new + bytes.skip(at + len)
    }
}

/// Whether the old name stands in `bytes` at each of the first `n` places, and the places ascend and
/// do not overlap.
pub open spec fn stand_apart(bytes: Seq<u8>, places: Seq<int>, old: Seq<u8>, n: nat) -> bool {
    &&& n <= places.len()
    &&& forall|i: int|
        0 <= i < n ==> 0 <= #[trigger] places[i] && places[i] + old.len() <= bytes.len() && bytes.subrange(
            places[i],
            places[i] + old.len(),
        ) == old
    &&& forall|i: int, j: int| 0 <= i < j < n ==> #[trigger] places[i] + old.len() <= #[trigger] places[j]
}

proof fn lemma_rewrite(
    bytes: Seq<u8>,
    tail: Seq<u8>,
    starts: Seq<int>,
    edits: Seq<PlannedEdit>,
    places: Seq<int>,
    old: Seq<char>,
    new: Seq<char>,
    n: nat,
    k: nat,
)
    requires
        edits.len() == places.len(),
        k + n == places.len(),
        forall|i: int|
            0 <= i < edits.len() ==> (#[trigger] edits[i]).old == old && edits[i].new == new && edit_start(
                starts,
                edits[i],
            ) == Some(places[places.len() - 1 - i]),
        stand_apart(bytes, places, hashing::utf8(old), n),
    ensures
        edits_from(bytes + tail, starts, edits, k, edits.len()) == replaced(
            bytes,
            places,
            hashing::utf8(old).len(),
            hashing::utf8(new),
            n,
        ) + tail,
    decreases n,
{
    let o = hashing::utf8(old);
    let w = hashing::utf8(new);
    if n > 0 {
        let at = places[n - 1];
        let e = edits[k as int];
        assert(edit_start(starts, e) == Some(places[places.len() - 1 - k]));
        let head = bytes.take(at);
        let rest = w + bytes.skip(at + o.len()) + tail;
        let all = bytes + tail;
        assert(all.subrange(at, at + o.len()) =~= bytes.subrange(at, at + o.len()));
        assert(with_edit(all, starts, e) =~= head + rest);
        assert forall|i: int| 0 <= i < n - 1 implies 0 <= #[trigger] places[i] && places[i] + o.len() <= head.len()
            && head.subrange(places[i], places[i] + o.len()) == o by {
            assert(places[i] + o.len() <= places[n - 1]);
            assert(head.subrange(places[i], places[i] + o.len()) =~= bytes.subrange(places[i], places[i] + o.len()));
        }
        lemma_rewrite(head, rest, starts, edits, places, old, new, (n - 1) as nat, k + 1);
        let inner = replaced(head, places, o.len(), w, (n - 1) as nat);
        assert(inner + rest =~= (inner + w + bytes.skip(at + o.len())) + tail);
    }
}

/// Some bytes with the edits from `k` on made.
pub open spec fn edits_from(bytes: Seq<u8>, starts: Seq<int>, edits: Seq<PlannedEdit>, k: nat, n: nat) -> Seq<u8>
    decreases n - k,
{
    if k >= n {
        bytes
    } else {
        edits_from(with_edit(bytes, starts, edits[k as int]), starts, edits, k + 1, n)
    }
}

proof fn lemma_edits_from(bytes: Seq<u8>, starts: Seq<int>, edits: Seq<PlannedEdit>, k: nat, n: nat)
    requires
        k <= n,
    ensures
        edits_from(with_edits(bytes, starts, edits, k), starts, edits, k, n) == with_edits(bytes, starts, edits, n),
    decreases n - k,
{
    if k < n {
        lemma_edits_from(bytes, starts, edits, k + 1, n);
    }
}

/// Making edits from the last to the first replaces the old name at every place and changes nothing
/// else, though the new name is longer or shorter: where the old name stands at each place, and the
/// places do not overlap, the result is the text with the new name at each of them.
pub proof fn law_rewriting_replaces_each(
    bytes: Seq<u8>,
    starts: Seq<int>,
    edits: Seq<PlannedEdit>,
    places: Seq<int>,
    old: Seq<char>,
    new: Seq<char>,
)
    requires
        edits.len() == places.len(),
        forall|i: int|
            0 <= i < edits.len() ==> (#[trigger] edits[i]).old == old && edits[i].new == new && edit_start(
                starts,
                edits[i],
            ) == Some(places[places.len() - 1 - i]),
        stand_apart(bytes, places, hashing::utf8(old), places.len()),
    ensures
        with_edits(bytes, starts, edits, edits.len()) == replaced(
            bytes,
            places,
            hashing::utf8(old).len(),
            hashing::utf8(new),
            places.len(),
        ),
{
    let none = Seq::<u8>::empty();
    lemma_rewrite(bytes, none, starts, edits, places, old, new, places.len(), 0);
    lemma_edits_from(bytes, starts, edits, 0, edits.len());
    assert(bytes + none =~= bytes);
    let r = replaced(bytes, places, hashing::utf8(old).len(), hashing::utf8(new), places.len());
    assert(r + none =~= r);
}

} // verus!
