//! The knowledge plane: documents, their sections, and what the sections mention.
//!
//! A reference of a section is linked to whatever it names at the first tier that knows it. A
//! reference that names nothing is counted, never linked to a guess. The text of a section is
//! never stored, only its place.
use vstd::prelude::*;

use crate::analysis::FileEntry;
use crate::code_plane;
use crate::model;
use crate::model::{Edge, EdgeKind, EdgeView, Graph, GraphView, NodeKind, NodeView, Provenance, Span, Uid};
use crate::text;

verus! {

/// A mention of a file by its exact path.
pub const KNOW_MENTION_PATH: u32 = 950_000_000;

/// A mention by a qualified name that one node has.
pub const KNOW_MENTION_FQN: u32 = 800_000_000;

/// A mention by a bare name that one node has.
pub const KNOW_MENTION_NAME: u32 = 700_000_000;

/// A mention that several nodes match.
pub const KNOW_AMBIGUOUS: u32 = 350_000_000;

/// What a reference in a document looks like.
#[derive(Clone, Copy, Debug, PartialEq, Eq, Structural)]
pub enum DocRefKind {
    /// The path of a file.
    PathRef,
    /// A span of inline code.
    InlineCode,
    /// A token of a code block.
    FenceToken,
}

/// A reference in a document.
#[derive(Debug, PartialEq, Eq)]
pub struct DocRef {
    pub kind: DocRefKind,
    pub text: String,
}

/// A section of a document.
#[derive(Debug, PartialEq, Eq)]
pub struct DocSectionModel {
    pub heading: String,
    pub anchor: String,
    pub span: Span,
    pub refs: Vec<DocRef>,
}

/// A document: its repository-relative path and its sections.
#[derive(Debug, PartialEq, Eq)]
pub struct DocModel {
    pub path: String,
    pub sections: Vec<DocSectionModel>,
}

/// How the documents of a repository linked up. An ambiguous mention counts as linked too.
#[derive(Clone, Copy, Debug, PartialEq, Eq, Structural)]
pub struct KnowledgeLinkCoverage {
    pub docs: usize,
    pub sections: usize,
    pub mentions_linked: usize,
    pub mentions_ambiguous: usize,
    /// References that name nothing.
    pub stale_doc_mentions: usize,
    /// Documentation comments, which this plane does not link.
    pub doc_comments: usize,
}

/// The mathematical counts of the mentions.
pub struct MentionCounts {
    pub linked: nat,
    pub ambiguous: nat,
    pub stale: nat,
}

impl MentionCounts {
    /// Nothing counted.
    pub open spec fn zero() -> MentionCounts {
        MentionCounts { linked: 0, ambiguous: 0, stale: 0 }
    }
}

impl KnowledgeLinkCoverage {
    /// Whether these are the counts of `v`.
    pub open spec fn counts(self, v: MentionCounts) -> bool {
        &&& self.mentions_linked == model::cap(v.linked)
        &&& self.mentions_ambiguous == model::cap(v.ambiguous)
        &&& self.stale_doc_mentions == model::cap(v.stale)
        &&& self.doc_comments == 0
    }
}

impl Default for KnowledgeLinkCoverage {
    fn default() -> (r: KnowledgeLinkCoverage)
        ensures
            r.counts(MentionCounts::zero()),
            r.docs == 0,
            r.sections == 0,
    {
        KnowledgeLinkCoverage {
            docs: 0,
            sections: 0,
            mentions_linked: 0,
            mentions_ambiguous: 0,
            stale_doc_mentions: 0,
            doc_comments: 0,
        }
    }
}

// ----------------------------------------------------------------------------------------------
// Documents and sections
// ----------------------------------------------------------------------------------------------

/// The identifier of a document.
pub open spec fn doc_id(repo: Seq<char>, path: Seq<char>) -> Seq<char> {
    model::uid_text("doc"@, repo, path, path, ""@)
}

/// The qualified name of a section.
pub open spec fn section_fqn(path: Seq<char>, anchor: Seq<char>) -> Seq<char> {
    path + "#"@ + anchor
}

/// The identifier of a section.
pub open spec fn section_id(repo: Seq<char>, path: Seq<char>, anchor: Seq<char>) -> Seq<char> {
    model::uid_text("doc"@, repo, path, section_fqn(path, anchor), ""@)
}

/// The identifier of a document.
pub fn doc_uid(repo: &str, path: &str) -> (r: Uid)
    ensures
        r@ == doc_id(repo@, path@),
{
    Uid::new("doc", repo, path, path, "")
}

/// The identifier of a section.
pub fn doc_section_uid(repo: &str, path: &str, anchor: &str) -> (r: Uid)
    ensures
        r@ == section_id(repo@, path@, anchor@),
{
    let fqn = text::concat3(path, "#", anchor);
    Uid::new("doc", repo, path, fqn.as_str(), "")
}

/// The span of a document: from its first section to its last.
pub open spec fn doc_span(sections: Seq<DocSectionModel>) -> Span {
    if sections.len() == 0 {
        model::no_span()
    } else {
        Span {
            start_line: sections.first().span.start_line,
            start_col: sections.first().span.start_col,
            end_line: sections.last().span.end_line,
            end_col: sections.last().span.end_col,
        }
    }
}

fn span_of_doc(doc: &DocModel) -> (r: Span)
    ensures
        r == doc_span(doc.sections@),
{
    let n: usize = doc.sections.len();
    if n == 0 {
        Span::default()
    } else {
        Span {
            start_line: doc.sections[0].span.start_line,
            start_col: doc.sections[0].span.start_col,
            end_line: doc.sections[n - 1].span.end_line,
            end_col: doc.sections[n - 1].span.end_col,
        }
    }
}

/// The node of a document.
pub open spec fn doc_fact(repo: Seq<char>, doc: DocModel) -> NodeView {
    model::fact_node(
        doc_id(repo, doc.path@),
        NodeKind::Doc,
        text::after_last(doc.path@, '/'),
        doc.path@,
        doc.path@,
        doc_span(doc.sections@),
    )
}

/// The node of a section.
pub open spec fn section_fact(repo: Seq<char>, path: Seq<char>, section: DocSectionModel) -> NodeView {
    model::fact_node(
        section_id(repo, path, section.anchor@),
        NodeKind::DocSection,
        section.heading@,
        section_fqn(path, section.anchor@),
        path,
        section.span,
    )
}

/// The graph with the first `n` sections of a document, each contained in it.
pub open spec fn with_sections(g: GraphView, repo: Seq<char>, doc: DocModel, n: nat) -> GraphView
    decreases n,
{
    if n == 0 {
        g
    } else {
        let section = doc.sections@[n - 1];
        with_sections(g, repo, doc, (n - 1) as nat).with_node(section_fact(repo, doc.path@, section)).with_edge(
            model::fact_edge(
                doc_id(repo, doc.path@),
                section_id(repo, doc.path@, section.anchor@),
                EdgeKind::Contains,
            ),
        )
    }
}

/// The graph with the first `n` documents and their sections.
pub open spec fn with_documents(g: GraphView, repo: Seq<char>, docs: Seq<DocModel>, n: nat) -> GraphView
    decreases n,
{
    if n == 0 {
        g
    } else {
        let doc = docs[n - 1];
        with_sections(
            with_documents(g, repo, docs, (n - 1) as nat).with_node(doc_fact(repo, doc)),
            repo,
            doc,
            doc.sections@.len(),
        )
    }
}

fn add_document(g: &mut Graph, repo: &str, doc: &DocModel)
    ensures
        final(g)@ == with_sections(
            old(g)@.with_node(doc_fact(repo@, *doc)),
            repo@,
            *doc,
            doc.sections@.len(),
        ),
{
    let path = doc.path.as_str();
    let uid = doc_uid(repo, path);
    let name = text::after_last_of(path, '/');
    g.add_node(
        model::extracted_node(uid.clone(), NodeKind::Doc, name.as_str(), path, path, span_of_doc(doc)),
    );
    let ghost before = g@;
    let mut i: usize = 0;
    while i < doc.sections.len()
        invariant
            i <= doc.sections@.len(),
            path@ == doc.path@,
            uid@ == doc_id(repo@, path@),
            g@ == with_sections(before, repo@, *doc, i as nat),
        decreases doc.sections@.len() - i,
    {
        let section = &doc.sections[i];
        let section_uid = doc_section_uid(repo, path, section.anchor.as_str());
        let fqn = text::concat3(path, "#", section.anchor.as_str());
        g.add_node(
            model::extracted_node(
                section_uid.clone(),
                NodeKind::DocSection,
                section.heading.as_str(),
                fqn.as_str(),
                path,
                section.span,
            ),
        );
        g.add_edge(model::extracted_edge(&uid, &section_uid, EdgeKind::Contains));
        i = i + 1;
    }
}

// ----------------------------------------------------------------------------------------------
// Mentions
// ----------------------------------------------------------------------------------------------

/// What a reference is compared with.
#[derive(Clone, Copy, Debug, PartialEq, Eq, Structural)]
pub enum Tier {
    Path,
    Fqn,
    Name,
}

/// Whether the path of a node of this kind stands for the node, and not for the file that it is
/// defined in.
pub open spec fn path_bearing(kind: NodeKind) -> bool {
    kind == NodeKind::Module || kind == NodeKind::Table || kind == NodeKind::ApiOperation || kind
        == NodeKind::GraphqlField || kind == NodeKind::Doc
}

/// Whether the path of a node of this kind stands for the node.
pub fn is_path_bearing(kind: NodeKind) -> (r: bool)
    ensures
        r == path_bearing(kind),
{
    kind == NodeKind::Module || kind == NodeKind::Table || kind == NodeKind::ApiOperation || kind
        == NodeKind::GraphqlField || kind == NodeKind::Doc
}

/// Whether a text names a node at a tier.
pub open spec fn names(node: NodeView, tier: Tier, text: Seq<char>) -> bool {
    match tier {
        Tier::Path => path_bearing(node.kind) && node.path == text,
        Tier::Fqn => node.fqn == text,
        Tier::Name => node.name == text,
    }
}

/// Those of the first `n` nodes that a text names at a tier, in order.
pub open spec fn named_nodes(nodes: Seq<NodeView>, tier: Tier, text: Seq<char>, n: nat) -> Seq<Seq<char>>
    decreases n,
{
    if n == 0 {
        Seq::empty()
    } else {
        let rest = named_nodes(nodes, tier, text, (n - 1) as nat);
        if names(nodes[n - 1], tier, text) {
            rest.push(nodes[n - 1].uid)
        } else {
            rest
        }
    }
}

/// The nodes that a text names at a tier.
pub open spec fn all_named(g: GraphView, tier: Tier, text: Seq<char>) -> Seq<Seq<char>> {
    named_nodes(g.nodes, tier, text, g.nodes.len())
}

/// What a reference names: the candidates, and how a single one of them counts.
pub struct Found {
    pub uids: Seq<Seq<char>>,
    pub confidence: u32,
    pub provenance: Provenance,
}

/// What a reference names. A path is looked up as a path only. Code is looked up as a qualified
/// name and, unless it stands in a code block, as a bare name where that names nothing.
pub open spec fn found(g: GraphView, r: DocRef) -> Found {
    let by_path = all_named(g, Tier::Path, r.text@);
    let by_fqn = all_named(g, Tier::Fqn, r.text@);
    let by_name = all_named(g, Tier::Name, r.text@);
    if r.kind == DocRefKind::PathRef {
        Found { uids: by_path, confidence: KNOW_MENTION_PATH, provenance: Provenance::Extracted }
    } else if by_fqn.len() > 0 || r.kind == DocRefKind::FenceToken {
        Found { uids: by_fqn, confidence: KNOW_MENTION_FQN, provenance: Provenance::Inferred }
    } else {
        Found { uids: by_name, confidence: KNOW_MENTION_NAME, provenance: Provenance::Inferred }
    }
}

fn collect_named(g: &Graph, tier: Tier, text: &str) -> (r: Vec<Uid>)
    ensures
        model::uid_views(r@) == all_named(g@, tier, text@),
{
    let mut out: Vec<Uid> = Vec::new();
    assert(model::uid_views(out@) =~= named_nodes(g@.nodes, tier, text@, 0));
    let mut i: usize = 0;
    while i < g.nodes.len()
        invariant
            i <= g.nodes@.len(),
            model::uid_views(out@) == named_nodes(g@.nodes, tier, text@, i as nat),
        decreases g.nodes@.len() - i,
    {
        let n = &g.nodes[i];
        assert(g@.nodes[i as int] == n@);
        let hit = match tier {
            Tier::Path => is_path_bearing(n.kind) && text::same(n.path.as_str(), text),
            Tier::Fqn => text::same(n.fqn.as_str(), text),
            Tier::Name => text::same(n.name.as_str(), text),
        };
        if hit {
            let ghost before = model::uid_views(out@);
            out.push(n.uid.clone());
            assert(model::uid_views(out@) =~= before.push(n.uid@));
        }
        i = i + 1;
    }
    out
}

/// What a reference names: the candidates, and the confidence and the provenance of a single one.
pub fn candidates_for(g: &Graph, r: &DocRef) -> (out: (Vec<Uid>, u32, Provenance))
    ensures
        ({
            let f = found(g@, *r);
            model::uid_views(out.0@) == f.uids && out.1 == f.confidence && out.2 == f.provenance
        }),
{
    if r.kind == DocRefKind::PathRef {
        return (collect_named(g, Tier::Path, r.text.as_str()), KNOW_MENTION_PATH, Provenance::Extracted);
    }
    let by_fqn = collect_named(g, Tier::Fqn, r.text.as_str());
    assert(model::uid_views(by_fqn@).len() == by_fqn@.len());
    if by_fqn.len() > 0 || r.kind == DocRefKind::FenceToken {
        return (by_fqn, KNOW_MENTION_FQN, Provenance::Inferred);
    }
    (collect_named(g, Tier::Name, r.text.as_str()), KNOW_MENTION_NAME, Provenance::Inferred)
}

/// A graph under construction, the counts so far, and the nodes that the section mentions.
pub struct KnowledgeState {
    pub graph: GraphView,
    pub counts: MentionCounts,
    pub edged: Seq<Seq<char>>,
}

/// Whether one of the first `n` candidates is not the document itself.
pub open spec fn has_other(uids: Seq<Seq<char>>, own: Seq<char>, n: nat) -> bool {
    exists|i: int| 0 <= i < n && #[trigger] uids[i] != own
}

/// The state with an edge from a section to each of the first `n` candidates that is not its own
/// document and that it does not mention yet.
pub open spec fn with_mention_edges(
    s: KnowledgeState,
    section: Seq<char>,
    own: Seq<char>,
    uids: Seq<Seq<char>>,
    prov: Provenance,
    conf: u32,
    n: nat,
) -> KnowledgeState
    decreases n,
{
    if n == 0 {
        s
    } else {
        let t = with_mention_edges(s, section, own, uids, prov, conf, (n - 1) as nat);
        let dst = uids[n - 1];
        if dst == own || t.edged.contains(dst) {
            t
        } else {
            KnowledgeState {
                graph: t.graph.with_edge(model::edge_of(section, dst, EdgeKind::Mentions, prov, conf)),
                counts: t.counts,
                edged: t.edged.push(dst),
            }
        }
    }
}

/// The state with a reference of a section. Several candidates make it ambiguous, the document
/// itself among them; a reference to the document alone is neither linked nor stale; and a token of
/// a code block that names nothing is no claim and not stale.
pub open spec fn with_mention(s: KnowledgeState, section: Seq<char>, own: Seq<char>, r: DocRef) -> KnowledgeState {
    let f = found(s.graph, r);
    let many = f.uids.len() > 1;
    if f.uids.len() == 0 {
        if r.kind == DocRefKind::FenceToken {
            s
        } else {
            KnowledgeState { counts: MentionCounts { stale: s.counts.stale + 1, ..s.counts }, ..s }
        }
    } else if !has_other(f.uids, own, f.uids.len()) {
        s
    } else {
        let counted = KnowledgeState {
            counts: MentionCounts {
                linked: s.counts.linked + 1,
                ambiguous: s.counts.ambiguous + if many { 1nat } else { 0 },
                ..s.counts
            },
            ..s
        };
        with_mention_edges(
            counted,
            section,
            own,
            f.uids,
            if many { Provenance::Ambiguous } else { f.provenance },
            if many { KNOW_AMBIGUOUS } else { f.confidence },
            f.uids.len(),
        )
    }
}

/// The state with the first `n` references of a section.
pub open spec fn with_mentions(s: KnowledgeState, section: Seq<char>, own: Seq<char>, refs: Seq<DocRef>, n: nat) -> KnowledgeState
    decreases n,
{
    if n == 0 {
        s
    } else {
        with_mention(with_mentions(s, section, own, refs, (n - 1) as nat), section, own, refs[n - 1])
    }
}

/// The graph and the counts with the references of the first `n` sections of a document.
pub open spec fn with_section_mentions(s: (GraphView, MentionCounts), repo: Seq<char>, doc: DocModel, n: nat) -> (
    GraphView,
    MentionCounts,
)
    decreases n,
{
    if n == 0 {
        s
    } else {
        let t = with_section_mentions(s, repo, doc, (n - 1) as nat);
        let section = doc.sections@[n - 1];
        let e = with_mentions(
            KnowledgeState { graph: t.0, counts: t.1, edged: Seq::empty() },
            section_id(repo, doc.path@, section.anchor@),
            doc_id(repo, doc.path@),
            section.refs@,
            section.refs@.len(),
        );
        (e.graph, e.counts)
    }
}

/// The graph and the counts with the references of the first `n` documents.
pub open spec fn with_doc_mentions(s: (GraphView, MentionCounts), repo: Seq<char>, docs: Seq<DocModel>, n: nat) -> (
    GraphView,
    MentionCounts,
)
    decreases n,
{
    if n == 0 {
        s
    } else {
        let doc = docs[n - 1];
        with_section_mentions(with_doc_mentions(s, repo, docs, (n - 1) as nat), repo, doc, doc.sections@.len())
    }
}

/// The knowledge plane on top of `g`: first every document and section, then every reference.
pub open spec fn knowledge_plane(g: GraphView, repo: Seq<char>, docs: Seq<DocModel>) -> (GraphView, MentionCounts) {
    with_doc_mentions((with_documents(g, repo, docs, docs.len()), MentionCounts::zero()), repo, docs, docs.len())
}

/// The number of sections of the first `n` documents.
pub open spec fn section_count(docs: Seq<DocModel>, n: nat) -> nat
    decreases n,
{
    if n == 0 {
        0
    } else {
        section_count(docs, (n - 1) as nat) + docs[n - 1].sections@.len()
    }
}

fn any_other(uids: &Vec<Uid>, own: &Uid) -> (r: bool)
    ensures
        r == has_other(model::uid_views(uids@), own@, uids@.len()),
{
    let ghost uv = model::uid_views(uids@);
    let mut i: usize = 0;
    while i < uids.len()
        invariant
            i <= uids@.len(),
            uv == model::uid_views(uids@),
            forall|j: int| 0 <= j < i ==> #[trigger] uv[j] == own@,
        decreases uids@.len() - i,
    {
        assert(uv[i as int] == uids@[i as int]@);
        if !uids[i].same(own) {
            return true;
        }
        i = i + 1;
    }
    false
}

fn is_edged(edged: &Vec<Uid>, uid: &Uid) -> (r: bool)
    ensures
        r == model::uid_views(edged@).contains(uid@),
{
    let mut i: usize = 0;
    while i < edged.len()
        invariant
            i <= edged@.len(),
            forall|j: int| 0 <= j < i ==> #[trigger] model::uid_views(edged@)[j] != uid@,
        decreases edged@.len() - i,
    {
        assert(model::uid_views(edged@)[i as int] == edged@[i as int]@);
        if edged[i].same(uid) {
            return true;
        }
        i = i + 1;
    }
    false
}

fn resolve_ref(
    g: &mut Graph,
    cov: &mut KnowledgeLinkCoverage,
    section: &Uid,
    own: &Uid,
    r: &DocRef,
    edged: &mut Vec<Uid>,
    Ghost(c): Ghost<MentionCounts>,
)
    requires
        old(cov).counts(c),
    ensures
        ({
            let s = KnowledgeState { graph: old(g)@, counts: c, edged: model::uid_views(old(edged)@) };
            let e = with_mention(s, section@, own@, *r);
            &&& final(g)@ == e.graph
            &&& final(cov).counts(e.counts)
            &&& model::uid_views(final(edged)@) == e.edged
        }),
        final(cov).docs == old(cov).docs,
        final(cov).sections == old(cov).sections,
{
    let (uids, single_conf, single_prov) = candidates_for(g, r);
    let ghost uv = model::uid_views(uids@);
    assert(uv.len() == uids@.len());
    if uids.len() == 0 {
        if r.kind != DocRefKind::FenceToken {
            cov.stale_doc_mentions = model::bump(cov.stale_doc_mentions);
        }
        return ;
    }
    if !any_other(&uids, own) {
        return ;
    }
    let many = uids.len() > 1;
    let conf: u32 = if many {
        KNOW_AMBIGUOUS
    } else {
        single_conf
    };
    let prov = if many {
        Provenance::Ambiguous
    } else {
        single_prov
    };
    cov.mentions_linked = model::bump(cov.mentions_linked);
    if many {
        cov.mentions_ambiguous = model::bump(cov.mentions_ambiguous);
    }
    let ghost start = KnowledgeState {
        graph: g@,
        counts: MentionCounts {
            linked: c.linked + 1,
            ambiguous: c.ambiguous + if many { 1nat } else { 0 },
            ..c
        },
        edged: model::uid_views(edged@),
    };
    let mut i: usize = 0;
    while i < uids.len()
        invariant
            i <= uids@.len(),
            uv == model::uid_views(uids@),
            g@ == with_mention_edges(start, section@, own@, uv, prov, conf, i as nat).graph,
            model::uid_views(edged@) == with_mention_edges(
                start,
                section@,
                own@,
                uv,
                prov,
                conf,
                i as nat,
            ).edged,
            start.counts == with_mention_edges(start, section@, own@, uv, prov, conf, i as nat).counts,
        decreases uids@.len() - i,
    {
        let dst = &uids[i];
        assert(uv[i as int] == dst@);
        if !dst.same(own) && !is_edged(edged, dst) {
            let ghost before = model::uid_views(edged@);
            edged.push(dst.clone());
            assert(model::uid_views(edged@) =~= before.push(dst@));
            g.add_edge(Edge::make(section, dst, EdgeKind::Mentions, prov, conf));
        }
        i = i + 1;
    }
}

/// Adds the knowledge plane of a repository and reports how it linked up.
pub fn build_knowledge_plane(g: &mut Graph, repo: &str, docs: &Vec<DocModel>) -> (r: KnowledgeLinkCoverage)
    ensures
        final(g)@ == knowledge_plane(old(g)@, repo@, docs@).0,
        r.counts(knowledge_plane(old(g)@, repo@, docs@).1),
        r.docs == docs@.len(),
        r.sections == model::cap(section_count(docs@, docs@.len())),
{
    let mut cov = KnowledgeLinkCoverage::default();
    cov.docs = docs.len();
    let ghost before = g@;
    let mut i: usize = 0;
    while i < docs.len()
        invariant
            i <= docs@.len(),
            cov.counts(MentionCounts::zero()),
            cov.docs == docs@.len(),
            cov.sections == model::cap(section_count(docs@, i as nat)),
            g@ == with_documents(before, repo@, docs@, i as nat),
        decreases docs@.len() - i,
    {
        cov.sections = model::plus(cov.sections, docs[i].sections.len());
        add_document(g, repo, &docs[i]);
        i = i + 1;
    }
    let ghost s0 = (g@, MentionCounts::zero());
    let mut k: usize = 0;
    while k < docs.len()
        invariant
            k <= docs@.len(),
            cov.docs == docs@.len(),
            cov.sections == model::cap(section_count(docs@, docs@.len())),
            g@ == with_doc_mentions(s0, repo@, docs@, k as nat).0,
            cov.counts(with_doc_mentions(s0, repo@, docs@, k as nat).1),
        decreases docs@.len() - k,
    {
        let doc = &docs[k];
        let own = doc_uid(repo, doc.path.as_str());
        let ghost base = with_doc_mentions(s0, repo@, docs@, k as nat);
        let mut j: usize = 0;
        while j < doc.sections.len()
            invariant
                j <= doc.sections@.len(),
                own@ == doc_id(repo@, doc.path@),
                cov.docs == docs@.len(),
                cov.sections == model::cap(section_count(docs@, docs@.len())),
                g@ == with_section_mentions(base, repo@, *doc, j as nat).0,
                cov.counts(with_section_mentions(base, repo@, *doc, j as nat).1),
            decreases doc.sections@.len() - j,
        {
            let section = &doc.sections[j];
            let section_uid = doc_section_uid(repo, doc.path.as_str(), section.anchor.as_str());
            let mut edged: Vec<Uid> = Vec::new();
            assert(model::uid_views(edged@) =~= Seq::<Seq<char>>::empty());
            let ghost start = KnowledgeState {
                graph: g@,
                counts: with_section_mentions(base, repo@, *doc, j as nat).1,
                edged: Seq::empty(),
            };
            let mut m: usize = 0;
            while m < section.refs.len()
                invariant
                    m <= section.refs@.len(),
                    cov.docs == docs@.len(),
                    cov.sections == model::cap(section_count(docs@, docs@.len())),
                    g@ == with_mentions(start, section_uid@, own@, section.refs@, m as nat).graph,
                    cov.counts(with_mentions(start, section_uid@, own@, section.refs@, m as nat).counts),
                    model::uid_views(edged@) == with_mentions(
                        start,
                        section_uid@,
                        own@,
                        section.refs@,
                        m as nat,
                    ).edged,
                decreases section.refs@.len() - m,
            {
                resolve_ref(
                    g,
                    &mut cov,
                    &section_uid,
                    &own,
                    &section.refs[m],
                    &mut edged,
                    Ghost(with_mentions(start, section_uid@, own@, section.refs@, m as nat).counts),
                );
                m = m + 1;
            }
            j = j + 1;
        }
        k = k + 1;
    }
    cov
}

/// The code plane of a set of files, by names alone, with the knowledge plane on top.
pub fn assemble_graph_with_knowledge(analyzed: &Vec<FileEntry>, repo_name: &str, docs: &Vec<DocModel>) -> (r: (
    Graph,
    KnowledgeLinkCoverage,
))
    ensures
        ({
            let code = code_plane::code_plane(repo_name@, analyzed@, None, Seq::empty()).0;
            let e = knowledge_plane(code, repo_name@, docs@);
            &&& r.0@ == e.0
            &&& r.1.counts(e.1)
            &&& r.1.docs == docs@.len()
            &&& r.1.sections == model::cap(section_count(docs@, docs@.len()))
        }),
{
    let mut g = code_plane::assemble_graph(analyzed, repo_name);
    let cov = build_knowledge_plane(&mut g, repo_name, docs);
    (g, cov)
}

// ----------------------------------------------------------------------------------------------
// Laws
// ----------------------------------------------------------------------------------------------

proof fn lemma_sections_grow(g: GraphView, repo: Seq<char>, doc: DocModel, n: nat)
    requires
        n <= doc.sections@.len(),
    ensures
        model::grows(g, with_sections(g, repo, doc, n)),
    decreases n,
{
    if n > 0 {
        lemma_sections_grow(g, repo, doc, (n - 1) as nat);
        let h = with_sections(g, repo, doc, (n - 1) as nat);
        let section = doc.sections@[n - 1];
        let node = section_fact(repo, doc.path@, section);
        model::lemma_grows_node(g, h, node);
        model::lemma_grows_edge(
            g,
            h.with_node(node),
            model::fact_edge(
                doc_id(repo, doc.path@),
                section_id(repo, doc.path@, section.anchor@),
                EdgeKind::Contains,
            ),
        );
    }
}

proof fn lemma_documents_grow(g: GraphView, repo: Seq<char>, docs: Seq<DocModel>, n: nat)
    requires
        n <= docs.len(),
    ensures
        model::grows(g, with_documents(g, repo, docs, n)),
    decreases n,
{
    if n > 0 {
        lemma_documents_grow(g, repo, docs, (n - 1) as nat);
        let h = with_documents(g, repo, docs, (n - 1) as nat);
        let doc = docs[n - 1];
        let node = doc_fact(repo, doc);
        model::lemma_grows_node(g, h, node);
        lemma_sections_grow(h.with_node(node), repo, doc, doc.sections@.len());
        model::lemma_grows_trans(
            g,
            h.with_node(node),
            with_sections(h.with_node(node), repo, doc, doc.sections@.len()),
        );
    }
}

proof fn lemma_named_nodes(g: GraphView, tier: Tier, text: Seq<char>, n: nat)
    requires
        n <= g.nodes.len(),
    ensures
        forall|i: int|
            0 <= i < named_nodes(g.nodes, tier, text, n).len() ==> g.has(
                #[trigger] named_nodes(g.nodes, tier, text, n)[i],
            ),
    decreases n,
{
    if n > 0 {
        lemma_named_nodes(g, tier, text, (n - 1) as nat);
        let rest = named_nodes(g.nodes, tier, text, (n - 1) as nat);
        let all = named_nodes(g.nodes, tier, text, n);
        assert forall|i: int| 0 <= i < all.len() implies g.has(#[trigger] all[i]) by {
            if i < rest.len() {
                assert(all[i] == rest[i]);
            } else {
                assert(g.nodes[n - 1].uid == all[i]);
            }
        }
    }
}

/// What a reference finds are nodes of the graph, and where it finds a single one its grade lies
/// in its band.
proof fn lemma_found(g: GraphView, r: DocRef)
    ensures
        forall|i: int| 0 <= i < found(g, r).uids.len() ==> g.has(#[trigger] found(g, r).uids[i]),
        model::in_band(found(g, r).provenance, found(g, r).confidence),
{
    lemma_named_nodes(g, Tier::Path, r.text@, g.nodes.len());
    lemma_named_nodes(g, Tier::Fqn, r.text@, g.nodes.len());
    lemma_named_nodes(g, Tier::Name, r.text@, g.nodes.len());
}

/// Whether the edges of `s` beyond those of `g` are the mentions of a section, each of another node
/// than the document itself and no node twice.
pub open spec fn mentions_once(g: GraphView, s: KnowledgeState, section: Seq<char>, own: Seq<char>) -> bool {
    &&& model::grows(g, s.graph)
    &&& s.graph.edges.len() == g.edges.len() + s.edged.len()
    &&& forall|k: int|
        0 <= k < s.edged.len() ==> mentions(s.graph.edges[g.edges.len() + k], section, #[trigger] s.edged[k])
    &&& !s.edged.contains(own)
    &&& s.edged.no_duplicates()
}

/// Whether an edge says that a section mentions a node.
pub open spec fn mentions(e: EdgeView, section: Seq<char>, dst: Seq<char>) -> bool {
    e.kind == EdgeKind::Mentions && e.src == section && e.dst == dst
}

proof fn lemma_mention_edges(
    g: GraphView,
    s: KnowledgeState,
    section: Seq<char>,
    own: Seq<char>,
    uids: Seq<Seq<char>>,
    prov: Provenance,
    conf: u32,
    n: nat,
)
    requires
        n <= uids.len(),
        mentions_once(g, s, section, own),
        model::in_band(prov, conf),
        forall|i: int| 0 <= i < uids.len() ==> s.graph.has(#[trigger] uids[i]),
    ensures
        mentions_once(g, with_mention_edges(s, section, own, uids, prov, conf, n), section, own),
        model::extends(s.graph, with_mention_edges(s, section, own, uids, prov, conf, n).graph),
        with_mention_edges(s, section, own, uids, prov, conf, n).counts == s.counts,
    decreases n,
{
    if n > 0 {
        lemma_mention_edges(g, s, section, own, uids, prov, conf, (n - 1) as nat);
        let t = with_mention_edges(s, section, own, uids, prov, conf, (n - 1) as nat);
        let dst = uids[n - 1];
        if dst != own && !t.edged.contains(dst) {
            assert(s.graph.has(uids[n - 1]));
            let e = model::edge_of(section, dst, EdgeKind::Mentions, prov, conf);
            model::lemma_grows_edge(g, t.graph, e);
            let u = with_mention_edges(s, section, own, uids, prov, conf, n);
            assert(u.graph == t.graph.with_edge(e));
            assert forall|k: int| 0 <= k < u.edged.len() implies mentions(
                u.graph.edges[g.edges.len() + k],
                section,
                #[trigger] u.edged[k],
            ) by {
                if k < t.edged.len() {
                    assert(u.edged[k] == t.edged[k]);
                    assert(u.graph.edges[g.edges.len() + k] == t.graph.edges[g.edges.len() + k]);
                    assert(mentions(t.graph.edges[g.edges.len() + k], section, t.edged[k]));
                }
            }
            assert(!u.edged.contains(own)) by {
                if u.edged.contains(own) {
                    let i = choose|i: int| 0 <= i < u.edged.len() && u.edged[i] == own;
                    assert(t.edged[i] == own);
                }
            }
            assert(u.edged.no_duplicates()) by {
                assert forall|i: int, j: int| 0 <= i < u.edged.len() && 0 <= j < u.edged.len() && i != j implies u.edged[i]
                    != u.edged[j] by {
                    if i < t.edged.len() && j < t.edged.len() {
                        assert(t.edged[i] != t.edged[j]);
                    }
                }
            }
        }
    }
}

proof fn lemma_mention(g: GraphView, s: KnowledgeState, section: Seq<char>, own: Seq<char>, r: DocRef)
    requires
        mentions_once(g, s, section, own),
        s.counts.ambiguous <= s.counts.linked,
    ensures
        mentions_once(g, with_mention(s, section, own, r), section, own),
        with_mention(s, section, own, r).counts.ambiguous <= with_mention(s, section, own, r).counts.linked,
{
    lemma_found(s.graph, r);
    let f = found(s.graph, r);
    let many = f.uids.len() > 1;
    if f.uids.len() > 0 && has_other(f.uids, own, f.uids.len()) {
        let counted = KnowledgeState {
            counts: MentionCounts {
                linked: s.counts.linked + 1,
                ambiguous: s.counts.ambiguous + if many { 1nat } else { 0 },
                ..s.counts
            },
            ..s
        };
        assert(mentions_once(g, counted, section, own));
        lemma_mention_edges(
            g,
            counted,
            section,
            own,
            f.uids,
            if many { Provenance::Ambiguous } else { f.provenance },
            if many { KNOW_AMBIGUOUS } else { f.confidence },
            f.uids.len(),
        );
    } else if f.uids.len() == 0 && r.kind != DocRefKind::FenceToken {
        let stale = KnowledgeState { counts: MentionCounts { stale: s.counts.stale + 1, ..s.counts }, ..s };
        assert(mentions_once(g, stale, section, own));
    }
}

proof fn lemma_mentions(g: GraphView, s: KnowledgeState, section: Seq<char>, own: Seq<char>, refs: Seq<DocRef>, n: nat)
    requires
        mentions_once(g, s, section, own),
        s.counts.ambiguous <= s.counts.linked,
    ensures
        mentions_once(g, with_mentions(s, section, own, refs, n), section, own),
        with_mentions(s, section, own, refs, n).counts.ambiguous <= with_mentions(
            s,
            section,
            own,
            refs,
            n,
        ).counts.linked,
    decreases n,
{
    if n > 0 {
        lemma_mentions(g, s, section, own, refs, (n - 1) as nat);
        lemma_mention(g, with_mentions(s, section, own, refs, (n - 1) as nat), section, own, refs[n - 1]);
    }
}

/// A section mentions each node once at most, and never its own document.
pub proof fn law_section_mentions_once(g: GraphView, c: MentionCounts, section: Seq<char>, own: Seq<char>, refs: Seq<DocRef>)
    requires
        c.ambiguous <= c.linked,
    ensures
        ({
            let s = KnowledgeState { graph: g, counts: c, edged: Seq::empty() };
            let e = with_mentions(s, section, own, refs, refs.len());
            mentions_once(g, e, section, own) && e.counts.ambiguous <= e.counts.linked
        }),
{
    let s = KnowledgeState { graph: g, counts: c, edged: Seq::empty() };
    lemma_mentions(g, s, section, own, refs, refs.len());
}

proof fn lemma_section_mentions_grow(s: (GraphView, MentionCounts), repo: Seq<char>, doc: DocModel, n: nat)
    requires
        n <= doc.sections@.len(),
        s.1.ambiguous <= s.1.linked,
    ensures
        model::grows(s.0, with_section_mentions(s, repo, doc, n).0),
        with_section_mentions(s, repo, doc, n).1.ambiguous <= with_section_mentions(s, repo, doc, n).1.linked,
    decreases n,
{
    if n > 0 {
        lemma_section_mentions_grow(s, repo, doc, (n - 1) as nat);
        let t = with_section_mentions(s, repo, doc, (n - 1) as nat);
        let section = doc.sections@[n - 1];
        law_section_mentions_once(
            t.0,
            t.1,
            section_id(repo, doc.path@, section.anchor@),
            doc_id(repo, doc.path@),
            section.refs@,
        );
        model::lemma_grows_trans(s.0, t.0, with_section_mentions(s, repo, doc, n).0);
    }
}

proof fn lemma_doc_mentions_grow(s: (GraphView, MentionCounts), repo: Seq<char>, docs: Seq<DocModel>, n: nat)
    requires
        n <= docs.len(),
        s.1.ambiguous <= s.1.linked,
    ensures
        model::grows(s.0, with_doc_mentions(s, repo, docs, n).0),
        with_doc_mentions(s, repo, docs, n).1.ambiguous <= with_doc_mentions(s, repo, docs, n).1.linked,
    decreases n,
{
    if n > 0 {
        lemma_doc_mentions_grow(s, repo, docs, (n - 1) as nat);
        let t = with_doc_mentions(s, repo, docs, (n - 1) as nat);
        let doc = docs[n - 1];
        lemma_section_mentions_grow(t, repo, doc, doc.sections@.len());
        model::lemma_grows_trans(s.0, t.0, with_section_mentions(t, repo, doc, doc.sections@.len()).0);
    }
}

/// The knowledge plane only adds, every edge that it adds lies in the band of its provenance and
/// leads to a node that is there, and what is ambiguous is counted among what is linked.
pub proof fn law_knowledge_plane_sound(g: GraphView, repo: Seq<char>, docs: Seq<DocModel>)
    ensures
        model::grows(g, knowledge_plane(g, repo, docs).0),
        knowledge_plane(g, repo, docs).1.ambiguous <= knowledge_plane(g, repo, docs).1.linked,
{
    lemma_documents_grow(g, repo, docs, docs.len());
    let a = with_documents(g, repo, docs, docs.len());
    lemma_doc_mentions_grow((a, MentionCounts::zero()), repo, docs, docs.len());
    model::lemma_grows_trans(g, a, knowledge_plane(g, repo, docs).0);
}

/// Counts with those of another added.
pub open spec fn added(a: MentionCounts, b: MentionCounts) -> MentionCounts {
    MentionCounts { linked: a.linked + b.linked, ambiguous: a.ambiguous + b.ambiguous, stale: a.stale + b.stale }
}

/// How a reference counts, by what it names in `g`: as linked where it names another node than its own
/// document, and as ambiguous too where it names several; as stale where it names nothing and is no
/// token of a code block; else not at all.
pub open spec fn counted_as(g: GraphView, own: Seq<char>, r: DocRef) -> MentionCounts {
    let uids = found(g, r).uids;
    let linked = has_other(uids, own, uids.len());
    MentionCounts {
        linked: if linked { 1 } else { 0 },
        ambiguous: if linked && uids.len() > 1 { 1 } else { 0 },
        stale: if uids.len() == 0 && r.kind != DocRefKind::FenceToken { 1 } else { 0 },
    }
}

/// How the first `n` references of a section count.
pub open spec fn refs_counted(g: GraphView, own: Seq<char>, refs: Seq<DocRef>, n: nat) -> MentionCounts
    decreases n,
{
    if n == 0 {
        MentionCounts::zero()
    } else {
        added(refs_counted(g, own, refs, (n - 1) as nat), counted_as(g, own, refs[n - 1]))
    }
}

/// How the references of the first `n` sections of a document count.
pub open spec fn sections_counted(g: GraphView, repo: Seq<char>, doc: DocModel, n: nat) -> MentionCounts
    decreases n,
{
    if n == 0 {
        MentionCounts::zero()
    } else {
        let refs = doc.sections@[n - 1].refs@;
        added(
            sections_counted(g, repo, doc, (n - 1) as nat),
            refs_counted(g, doc_id(repo, doc.path@), refs, refs.len()),
        )
    }
}

/// How the references of the first `n` documents count.
pub open spec fn docs_counted(g: GraphView, repo: Seq<char>, docs: Seq<DocModel>, n: nat) -> MentionCounts
    decreases n,
{
    if n == 0 {
        MentionCounts::zero()
    } else {
        let doc = docs[n - 1];
        added(docs_counted(g, repo, docs, (n - 1) as nat), sections_counted(g, repo, doc, doc.sections@.len()))
    }
}

proof fn lemma_mention_edges_keep(
    s: KnowledgeState,
    section: Seq<char>,
    own: Seq<char>,
    uids: Seq<Seq<char>>,
    prov: Provenance,
    conf: u32,
    n: nat,
)
    ensures
        with_mention_edges(s, section, own, uids, prov, conf, n).graph.nodes == s.graph.nodes,
        with_mention_edges(s, section, own, uids, prov, conf, n).counts == s.counts,
    decreases n,
{
    if n > 0 {
        lemma_mention_edges_keep(s, section, own, uids, prov, conf, (n - 1) as nat);
    }
}

proof fn lemma_mention_counted(g: GraphView, s: KnowledgeState, section: Seq<char>, own: Seq<char>, r: DocRef)
    requires
        s.graph.nodes == g.nodes,
    ensures
        with_mention(s, section, own, r).graph.nodes == g.nodes,
        with_mention(s, section, own, r).counts == added(s.counts, counted_as(g, own, r)),
{
    let f = found(s.graph, r);
    let many = f.uids.len() > 1;
    assert(f == found(g, r));
    let counted = KnowledgeState {
        counts: MentionCounts {
            linked: s.counts.linked + 1,
            ambiguous: s.counts.ambiguous + if many { 1nat } else { 0 },
            ..s.counts
        },
        ..s
    };
    lemma_mention_edges_keep(
        counted,
        section,
        own,
        f.uids,
        if many { Provenance::Ambiguous } else { f.provenance },
        if many { KNOW_AMBIGUOUS } else { f.confidence },
        f.uids.len(),
    );
}

proof fn lemma_refs_counted(
    g: GraphView,
    s: KnowledgeState,
    section: Seq<char>,
    own: Seq<char>,
    refs: Seq<DocRef>,
    n: nat,
)
    requires
        s.graph.nodes == g.nodes,
    ensures
        with_mentions(s, section, own, refs, n).graph.nodes == g.nodes,
        with_mentions(s, section, own, refs, n).counts == added(s.counts, refs_counted(g, own, refs, n)),
    decreases n,
{
    if n > 0 {
        lemma_refs_counted(g, s, section, own, refs, (n - 1) as nat);
        lemma_mention_counted(g, with_mentions(s, section, own, refs, (n - 1) as nat), section, own, refs[n - 1]);
    }
}

proof fn lemma_sections_counted(
    g: GraphView,
    s: (GraphView, MentionCounts),
    repo: Seq<char>,
    doc: DocModel,
    n: nat,
)
    requires
        s.0.nodes == g.nodes,
    ensures
        with_section_mentions(s, repo, doc, n).0.nodes == g.nodes,
        with_section_mentions(s, repo, doc, n).1 == added(s.1, sections_counted(g, repo, doc, n)),
    decreases n,
{
    if n > 0 {
        lemma_sections_counted(g, s, repo, doc, (n - 1) as nat);
        let t = with_section_mentions(s, repo, doc, (n - 1) as nat);
        let section = doc.sections@[n - 1];
        lemma_refs_counted(
            g,
            KnowledgeState { graph: t.0, counts: t.1, edged: Seq::empty() },
            section_id(repo, doc.path@, section.anchor@),
            doc_id(repo, doc.path@),
            section.refs@,
            section.refs@.len(),
        );
    }
}

proof fn lemma_docs_counted(
    g: GraphView,
    s: (GraphView, MentionCounts),
    repo: Seq<char>,
    docs: Seq<DocModel>,
    n: nat,
)
    requires
        s.0.nodes == g.nodes,
    ensures
        with_doc_mentions(s, repo, docs, n).0.nodes == g.nodes,
        with_doc_mentions(s, repo, docs, n).1 == added(s.1, docs_counted(g, repo, docs, n)),
    decreases n,
{
    if n > 0 {
        lemma_docs_counted(g, s, repo, docs, (n - 1) as nat);
        let doc = docs[n - 1];
        lemma_sections_counted(g, with_doc_mentions(s, repo, docs, (n - 1) as nat), repo, doc, doc.sections@.len());
    }
}

/// Every reference counts by what it names once all documents are in the graph, wherever its document
/// stands among them: so a document may refer to one that comes later. References add no node.
pub proof fn law_references_see_every_document(g: GraphView, repo: Seq<char>, docs: Seq<DocModel>)
    ensures
        ({
            let a = with_documents(g, repo, docs, docs.len());
            &&& knowledge_plane(g, repo, docs).0.nodes == a.nodes
            &&& knowledge_plane(g, repo, docs).1 == docs_counted(a, repo, docs, docs.len())
        }),
{
    let a = with_documents(g, repo, docs, docs.len());
    lemma_docs_counted(a, (a, MentionCounts::zero()), repo, docs, docs.len());
}

} // verus!
