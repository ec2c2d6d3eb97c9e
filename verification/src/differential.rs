//! How well names resolve calls, measured against a SCIP index.
//!
//! For each call site what the name resolves to is recorded beside what the index says. The report
//! counts, by the class of the call and by the confidence band that its edges claim, how often the
//! index confirms an edge. It is a function of the recorded outcomes alone.
use vstd::prelude::*;

use crate::analysis::{CallRef, FileEntry, SourceText};
use crate::code_plane;
use crate::code_plane::{CallIndex, CallableView, HeuristicClass, ScipSide};
use crate::model;
use crate::model::{Direction, EdgeKind, EdgeView, Graph, GraphView, NodeView, Provenance, Uid};
use crate::order;
use crate::scip_merge;
use crate::scip_merge::{MappedTarget, ScipEntry, ScipTable, SiteResolver, TargetView};
use crate::text;

verus! {

/// What a name resolves a call to, and what the index says.
#[derive(Debug, PartialEq, Eq)]
pub struct SiteOutcome {
    pub file: String,
    pub class: HeuristicClass,
    /// The targets by name, each once and in order.
    pub heuristic_targets: Vec<Uid>,
    /// The target by the index, where it covers the site.
    pub scip_target: Option<Uid>,
    /// How an edge by name is known.
    pub heuristic_provenance: Provenance,
}

/// The value of a [`SiteOutcome`].
#[verifier::ext_equal]
pub struct OutcomeView {
    pub file: Seq<char>,
    pub class: HeuristicClass,
    pub targets: Seq<Seq<char>>,
    pub scip: Option<Seq<char>>,
    pub provenance: Provenance,
}

impl View for SiteOutcome {
    type V = OutcomeView;

    open spec fn view(&self) -> OutcomeView {
        OutcomeView {
            file: self.file@,
            class: self.class,
            targets: model::uid_views(self.heuristic_targets@),
            scip: scip_merge::opt_uid_view(self.scip_target),
            provenance: self.heuristic_provenance,
        }
    }
}

/// The values of a sequence of outcomes.
pub open spec fn outcome_views(v: Seq<SiteOutcome>) -> Seq<OutcomeView> {
    Seq::new(v.len(), |i: int| v[i]@)
}

// ----------------------------------------------------------------------------------------------
// TypeScript
// ----------------------------------------------------------------------------------------------

/// A precise target, unless it is the caller itself.
pub open spec fn other_than(t: Option<TargetView>, caller: Seq<char>) -> Option<Seq<char>> {
    match t {
        Some(x) => if x.uid() == caller {
            None
        } else {
            Some(x.uid())
        },
        None => None,
    }
}

/// The outcome of a call.
pub open spec fn call_outcome(
    repo: Seq<char>,
    f: FileEntry,
    call: CallRef,
    index: Seq<CallableView>,
    side: Option<ScipSide>,
) -> OutcomeView {
    let targets = code_plane::candidates(repo, f.path@, f.file, call, index);
    let class = code_plane::class_of(call.receiver, targets.len());
    OutcomeView {
        file: f.path@,
        class,
        targets,
        scip: other_than(
            code_plane::precise_target(side, f.path@, call),
            code_plane::enclosing_uid(repo, f.path@, call.enclosing_fqn@),
        ),
        provenance: code_plane::confidence_of(class).0,
    }
}

/// The outcomes of the first `n` calls of a file.
pub open spec fn outcomes_in(
    repo: Seq<char>,
    f: FileEntry,
    index: Seq<CallableView>,
    side: Option<ScipSide>,
    n: nat,
) -> Seq<OutcomeView> {
    Seq::new(n, |i: int| call_outcome(repo, f, f.file.calls@[i], index, side))
}

/// The outcomes of the calls of the first `n` files.
pub open spec fn outcomes_upto(
    repo: Seq<char>,
    files: Seq<FileEntry>,
    index: Seq<CallableView>,
    side: Option<ScipSide>,
    n: nat,
) -> Seq<OutcomeView>
    decreases n,
{
    if n == 0 {
        Seq::empty()
    } else {
        let f = files[n - 1];
        outcomes_upto(repo, files, index, side, (n - 1) as nat) + outcomes_in(repo, f, index, side, f.file.calls@.len())
    }
}

/// Resolves every call of a set of files both ways, by the rules of the code plane, and records the
/// outcomes. No graph is built.
pub fn resolve_differential(analyzed: &Vec<FileEntry>, sources: &Vec<SourceText>, repo_name: &str, scip: &ScipTable) -> (r:
    Vec<SiteOutcome>)
    ensures
        outcome_views(r@) == outcomes_upto(
            repo_name@,
            analyzed@,
            code_plane::call_index(repo_name@, analyzed@, analyzed@.len()),
            code_plane::scip_side(repo_name@, analyzed@, Some(scip.entries@), sources@),
            analyzed@.len(),
        ),
{
    let index = CallIndex::build(repo_name, analyzed);
    let resolver = SiteResolver::new(scip, sources, repo_name, analyzed);
    let ghost iv = index@;
    let ghost side = code_plane::scip_side(repo_name@, analyzed@, Some(scip.entries@), sources@);
    let mut out: Vec<SiteOutcome> = Vec::new();
    assert(outcome_views(out@) =~= outcomes_upto(repo_name@, analyzed@, iv, side, 0));
    let mut i: usize = 0;
    while i < analyzed.len()
        invariant
            i <= analyzed@.len(),
            iv == index@,
            code_plane::side_of(Some(&resolver)) == side,
            outcome_views(out@) == outcomes_upto(repo_name@, analyzed@, iv, side, i as nat),
        decreases analyzed@.len() - i,
    {
        let f = &analyzed[i];
        let ghost base = outcome_views(out@);
        assert(base + outcomes_in(repo_name@, *f, iv, side, 0) =~= base);
        let mut j: usize = 0;
        while j < f.file.calls.len()
            invariant
                j <= f.file.calls@.len(),
                iv == index@,
                code_plane::side_of(Some(&resolver)) == side,
                outcome_views(out@) == base + outcomes_in(repo_name@, *f, iv, side, j as nat),
            decreases f.file.calls@.len() - j,
        {
            let call = &f.file.calls[j];
            let caller = code_plane::uid_enclosing(repo_name, f.path.as_str(), call.enclosing_fqn.as_str());
            let site = code_plane::resolve_site_targets(
                repo_name,
                f.path.as_str(),
                &f.file,
                call,
                &index,
                Some(&resolver),
            );
            let scip_target = match &site.scip_target {
                Some(t) => if t.uid().same(&caller) {
                    None
                } else {
                    Some(t.uid().clone())
                },
                None => None,
            };
            let (heuristic_provenance, _) = code_plane::call_confidence(site.class);
            let o = SiteOutcome {
                file: f.path.clone(),
                class: site.class,
                heuristic_targets: site.heuristic_targets,
                scip_target,
                heuristic_provenance,
            };
            let ghost ov = o@;
            assert(model::uid_views(o.heuristic_targets@).len() == o.heuristic_targets@.len());
            assert(ov =~= call_outcome(repo_name@, *f, *call, iv, side));
            let ghost before = outcome_views(out@);
            out.push(o);
            assert(outcome_views(out@) =~= before.push(ov));
            assert(outcomes_in(repo_name@, *f, iv, side, (j + 1) as nat) =~= outcomes_in(
                repo_name@,
                *f,
                iv,
                side,
                j as nat,
            ).push(ov));
            assert(base + outcomes_in(repo_name@, *f, iv, side, (j + 1) as nat) =~= (base + outcomes_in(
                repo_name@,
                *f,
                iv,
                side,
                j as nat,
            )).push(ov));
            j = j + 1;
        }
        i = i + 1;
    }
    out
}

/// The recorded outcome of a call is what the code plane makes of it: where a precise target is
/// recorded, the call adds the edge to it and no other, and where none is found, it adds edges to
/// the recorded candidates, known as recorded.
pub proof fn law_outcome_agrees_with_graph(
    g: GraphView,
    repo: Seq<char>,
    f: FileEntry,
    call: CallRef,
    index: Seq<CallableView>,
    side: Option<ScipSide>,
)
    ensures
        ({
            let o = call_outcome(repo, f, call, index, side);
            let caller = code_plane::enclosing_uid(repo, f.path@, call.enclosing_fqn@);
            let precise = code_plane::precise_target(side, f.path@, call);
            let h = code_plane::with_call(g, caller, precise, o.targets, o.class).0;
            &&& o.scip matches Some(u) ==> h.edges == g.edges.push(
                model::edge_of(
                    caller,
                    u,
                    EdgeKind::Calls,
                    Provenance::Resolved,
                    code_plane::RESOLVED_CONFIDENCE,
                ),
            )
            &&& precise is None ==> h.edges.len() == g.edges.len() + o.targets.len() && forall|i: int|
                0 <= i < o.targets.len() ==> (#[trigger] h.edges[g.edges.len() + i]) == model::edge_of(
                    caller,
                    o.targets[i],
                    EdgeKind::Calls,
                    o.provenance,
                    code_plane::confidence_of(o.class).1,
                )
        }),
{
    let o = call_outcome(repo, f, call, index, side);
    let caller = code_plane::enclosing_uid(repo, f.path@, call.enclosing_fqn@);
    match code_plane::precise_target(side, f.path@, call) {
        Some(t) => {
            code_plane::law_precise_supersedes(g, caller, t, o.targets, o.class);
        },
        None => {
            let pc = code_plane::confidence_of(o.class);
            lemma_call_edges(g, caller, o.targets, pc.0, pc.1, o.targets.len());
        },
    }
}

proof fn lemma_call_edges(g: GraphView, caller: Seq<char>, targets: Seq<Seq<char>>, prov: Provenance, conf: u32, n: nat)
    requires
        n <= targets.len(),
    ensures
        code_plane::with_call_edges(g, caller, targets, prov, conf, n).edges.len() == g.edges.len() + n,
        forall|i: int|
            0 <= i < n ==> (#[trigger] code_plane::with_call_edges(g, caller, targets, prov, conf, n).edges[g.edges.len()
                + i]) == model::edge_of(caller, targets[i], EdgeKind::Calls, prov, conf),
    decreases n,
{
    if n > 0 {
        lemma_call_edges(g, caller, targets, prov, conf, (n - 1) as nat);
    }
}

// ----------------------------------------------------------------------------------------------
// Other languages
// ----------------------------------------------------------------------------------------------

/// The position of the last pair of colons within the first `n` characters that leaves room for both.
pub open spec fn last_colons(s: Seq<char>, n: nat) -> Option<int>
    decreases n,
{
    if n < 2 {
        None
    } else if s[n - 2] == ':' && s[n - 1] == ':' {
        Some(n - 2)
    } else {
        last_colons(s, (n - 1) as nat)
    }
}

/// The last segment of a path whose segments stand between pairs of colons.
pub open spec fn last_segment(path: Seq<char>) -> Seq<char> {
    match last_colons(path, path.len()) {
        Some(i) => path.skip(i + 2),
        None => path,
    }
}

/// The last segment of a path whose segments stand between pairs of colons.
pub fn last_path_segment(path: &str) -> (r: String)
    ensures
        r@ == last_segment(path@),
{
    let v = text::chars_of(path);
    let mut n: usize = v.len();
    while n >= 2
        invariant
            v@ == path@,
            n <= v@.len(),
            last_colons(path@, path@.len()) == last_colons(path@, n as nat),
        decreases n,
    {
        if v[n - 2] == ':' && v[n - 1] == ':' {
            let r = text::slice_text(&v, n, v.len());
            assert(r@ =~= path@.skip(n as int));
            return r;
        }
        n = n - 1;
    }
    path.to_owned()
}

/// How a call would be known by its receiver: surely on the enclosing object or type or on nothing,
/// else by an ambiguity.
pub open spec fn attempted(call: CallRef) -> Provenance {
    match call.receiver {
        None => Provenance::Inferred,
        Some(r) => if r@ == "self"@ || r@ == "&self"@ || (call.receiver_is_path && last_segment(r@) == "Self"@) {
            Provenance::Inferred
        } else {
            Provenance::Ambiguous
        },
    }
}

/// How a call would be known by its receiver.
pub fn attempted_band_provenance(call: &CallRef) -> (r: Provenance)
    ensures
        r == attempted(*call),
{
    match &call.receiver {
        None => Provenance::Inferred,
        Some(r) => {
            let last = last_path_segment(r.as_str());
            if text::same(r.as_str(), "self") || text::same(r.as_str(), "&self") || (call.receiver_is_path
                && text::same(last.as_str(), "Self")) {
                Provenance::Inferred
            } else {
                Provenance::Ambiguous
            }
        },
    }
}

/// The node that a site is attributed to, under a language tag.
pub open spec fn enclosing_in(lang: Seq<char>, repo: Seq<char>, path: Seq<char>, enclosing: Seq<char>) -> Seq<char> {
    if enclosing.len() == 0 {
        model::uid_text(lang, repo, path, "<module>"@, ""@)
    } else {
        model::uid_text(lang, repo, path, enclosing, ""@)
    }
}

/// The node that a site is attributed to, under a language tag.
pub fn uid_enclosing_lang(lang: &str, repo_name: &str, path: &str, enclosing_fqn: &str) -> (r: Uid)
    ensures
        r@ == enclosing_in(lang@, repo_name@, path@, enclosing_fqn@),
{
    if enclosing_fqn.unicode_len() == 0 {
        Uid::new(lang, repo_name, path, "<module>", "")
    } else {
        Uid::new(lang, repo_name, path, enclosing_fqn, "")
    }
}

/// The targets with this name among the first `n` neighbours.
pub open spec fn named_targets(neighbors: Seq<(EdgeView, NodeView)>, name: Seq<char>, n: nat) -> Seq<Seq<char>>
    decreases n,
{
    if n == 0 {
        Seq::empty()
    } else {
        let rest = named_targets(neighbors, name, (n - 1) as nat);
        if neighbors[n - 1].1.name == name {
            rest.push(neighbors[n - 1].0.dst)
        } else {
            rest
        }
    }
}

/// How the edge to the last target with this name among the first `n` neighbours is known.
pub open spec fn named_provenance(neighbors: Seq<(EdgeView, NodeView)>, name: Seq<char>, n: nat) -> Option<Provenance>
    decreases n,
{
    if n == 0 {
        None
    } else if neighbors[n - 1].1.name == name {
        Some(neighbors[n - 1].0.provenance)
    } else {
        named_provenance(neighbors, name, (n - 1) as nat)
    }
}

/// The node of the repository that the index resolves a call to.
pub open spec fn first_party(t: Option<TargetView>) -> Option<TargetView> {
    match t {
        Some(TargetView::Node(u)) => Some(TargetView::Node(u)),
        _ => None,
    }
}

/// The outcome of a call, with its targets by name read off a graph.
pub open spec fn graph_outcome(
    g: GraphView,
    lang: Seq<char>,
    repo: Seq<char>,
    f: FileEntry,
    call: CallRef,
    side: Option<ScipSide>,
) -> OutcomeView {
    let caller = enclosing_in(lang, repo, f.path@, call.enclosing_fqn@);
    let neighbors = model::neighbors_upto(g, caller, Direction::Outgoing, seq![EdgeKind::Calls], g.edges.len());
    OutcomeView {
        file: f.path@,
        class: HeuristicClass::BareSingle,
        targets: order::sorted_set(named_targets(neighbors, call.callee_name@, neighbors.len())),
        scip: other_than(first_party(code_plane::precise_target(side, f.path@, call)), caller),
        provenance: match named_provenance(neighbors, call.callee_name@, neighbors.len()) {
            Some(p) => p,
            None => attempted(call),
        },
    }
}

/// The outcomes of the first `n` calls of a file.
pub open spec fn graph_outcomes_in(
    g: GraphView,
    lang: Seq<char>,
    repo: Seq<char>,
    f: FileEntry,
    side: Option<ScipSide>,
    n: nat,
) -> Seq<OutcomeView> {
    Seq::new(n, |i: int| graph_outcome(g, lang, repo, f, f.file.calls@[i], side))
}

/// The outcomes of the calls of the first `n` files.
pub open spec fn graph_outcomes_upto(
    g: GraphView,
    lang: Seq<char>,
    repo: Seq<char>,
    files: Seq<FileEntry>,
    side: Option<ScipSide>,
    n: nat,
) -> Seq<OutcomeView>
    decreases n,
{
    if n == 0 {
        Seq::empty()
    } else {
        let f = files[n - 1];
        graph_outcomes_upto(g, lang, repo, files, side, (n - 1) as nat) + graph_outcomes_in(
            g,
            lang,
            repo,
            f,
            side,
            f.file.calls@.len(),
        )
    }
}

fn graph_targets(graph: &Graph, caller: &Uid, name: &str) -> (r: (Vec<Uid>, Option<Provenance>))
    ensures
        ({
            let neighbors = model::neighbors_upto(
                graph@,
                caller@,
                Direction::Outgoing,
                seq![EdgeKind::Calls],
                graph@.edges.len(),
            );
            &&& model::uid_views(r.0@) == order::sorted_set(named_targets(neighbors, name@, neighbors.len()))
            &&& r.1 == named_provenance(neighbors, name@, neighbors.len())
        }),
{
    let mut kinds: Vec<EdgeKind> = Vec::new();
    kinds.push(EdgeKind::Calls);
    assert(kinds@ =~= seq![EdgeKind::Calls]);
    let neighbors = graph.neighbors(caller, Direction::Outgoing, &kinds);
    let ghost nv = model::neighbor_views(neighbors@);
    let mut set: Vec<String> = Vec::new();
    let mut provenance: Option<Provenance> = None;
    let mut i: usize = 0;
    while i < neighbors.len()
        invariant
            i <= neighbors@.len(),
            nv == model::neighbor_views(neighbors@),
            order::ascending(text::views(set@)),
            forall|u: Seq<char>| #[trigger]
                text::views(set@).contains(u) == named_targets(nv, name@, i as nat).contains(u),
            provenance == named_provenance(nv, name@, i as nat),
        decreases neighbors@.len() - i,
    {
        let n = &neighbors[i];
        assert(nv[i as int] == (n.edge@, n.node@));
        let ghost before = text::views(set@);
        let ghost rest = named_targets(nv, name@, i as nat);
        if text::same(n.node.name.as_str(), name) {
            order::insert_text(&mut set, n.edge.dst.0.clone());
            provenance = Some(n.edge.provenance);
            assert forall|u: Seq<char>| #[trigger]
                text::views(set@).contains(u) == named_targets(nv, name@, (i + 1) as nat).contains(u) by {
                assert(before.contains(u) == rest.contains(u));
                let all = rest.push(n.edge@.dst);
                if rest.contains(u) {
                    let k = choose|k: int| 0 <= k < rest.len() && rest[k] == u;
                    assert(all[k] == u);
                }
                if all.contains(u) && u != n.edge@.dst {
                    let k = choose|k: int| 0 <= k < all.len() && all[k] == u;
                    assert(rest[k] == u);
                }
                assert(all[rest.len() as int] == n.edge@.dst);
            }
        }
        i = i + 1;
    }
    let ghost listed = text::views(set@);
    proof {
        let s = named_targets(nv, name@, nv.len());
        assert forall|x: Seq<char>|
            #![trigger listed.contains(x)]
            #![trigger s.contains(x)]
            listed.contains(x) == s.contains(x) by {}
        order::lemma_sorted_set(s, listed);
    }
    let uids = to_uids(&set);
    (uids, provenance)
}

fn to_uids(set: &Vec<String>) -> (r: Vec<Uid>)
    ensures
        model::uid_views(r@) == text::views(set@),
{
    let mut out: Vec<Uid> = Vec::new();
    let mut i: usize = 0;
    while i < set.len()
        invariant
            i <= set@.len(),
            out@.len() == i,
            forall|j: int| 0 <= j < i ==> (#[trigger] out@[j])@ == set@[j]@,
        decreases set@.len() - i,
    {
        out.push(Uid(set[i].clone()));
        i = i + 1;
    }
    assert(model::uid_views(out@) =~= text::views(set@));
    out
}

/// The SCIP side of a set of files, under a language tag.
pub open spec fn tagged_side(
    lang: Seq<char>,
    repo: Seq<char>,
    files: Seq<FileEntry>,
    entries: Seq<ScipEntry>,
    sources: Seq<SourceText>,
) -> ScipSide {
    ScipSide { entries, sources, indices: scip_merge::indices_of(lang, repo, files) }
}

/// Records for every call of a set of files what its edges in a graph say and what the index says.
/// The graph is that of the linker of the language, whose identifiers carry the tag `lang`.
pub fn resolve_differential_graph(
    analyzed: &Vec<FileEntry>,
    sources: &Vec<SourceText>,
    graph: &Graph,
    repo_name: &str,
    lang: &str,
    scip: &ScipTable,
) -> (r: Vec<SiteOutcome>)
    ensures
        outcome_views(r@) == graph_outcomes_upto(
            graph@,
            lang@,
            repo_name@,
            analyzed@,
            Some(tagged_side(lang@, repo_name@, analyzed@, scip.entries@, sources@)),
            analyzed@.len(),
        ),
{
    let resolver = SiteResolver {
        scip,
        sources,
        indices: scip_merge::build_tagged_indices(lang, repo_name, analyzed),
    };
    let ghost side = Some(tagged_side(lang@, repo_name@, analyzed@, scip.entries@, sources@));
    let mut out: Vec<SiteOutcome> = Vec::new();
    assert(outcome_views(out@) =~= Seq::<OutcomeView>::empty());
    let mut i: usize = 0;
    while i < analyzed.len()
        invariant
            i <= analyzed@.len(),
            code_plane::side_of(Some(&resolver)) == side,
            outcome_views(out@) == graph_outcomes_upto(graph@, lang@, repo_name@, analyzed@, side, i as nat),
        decreases analyzed@.len() - i,
    {
        let f = &analyzed[i];
        let ghost base = outcome_views(out@);
        assert(base + graph_outcomes_in(graph@, lang@, repo_name@, *f, side, 0) =~= base);
        let mut j: usize = 0;
        while j < f.file.calls.len()
            invariant
                j <= f.file.calls@.len(),
                code_plane::side_of(Some(&resolver)) == side,
                outcome_views(out@) == base + graph_outcomes_in(graph@, lang@, repo_name@, *f, side, j as nat),
            decreases f.file.calls@.len() - j,
        {
            let call = &f.file.calls[j];
            let o = graph_site(graph, lang, repo_name, f, call, &resolver);
            let ghost ov = o@;
            let ghost before = outcome_views(out@);
            out.push(o);
            assert(outcome_views(out@) =~= before.push(ov));
            assert(base + graph_outcomes_in(graph@, lang@, repo_name@, *f, side, (j + 1) as nat) =~= (base
                + graph_outcomes_in(graph@, lang@, repo_name@, *f, side, j as nat)).push(ov));
            j = j + 1;
        }
        i = i + 1;
    }
    out
}

fn graph_site(
    graph: &Graph,
    lang: &str,
    repo_name: &str,
    f: &FileEntry,
    call: &CallRef,
    resolver: &SiteResolver<'_>,
) -> (r: SiteOutcome)
    ensures
        r@ == graph_outcome(graph@, lang@, repo_name@, *f, *call, code_plane::side_of(Some(resolver))),
{
    let caller = uid_enclosing_lang(lang, repo_name, f.path.as_str(), call.enclosing_fqn.as_str());
    let (heuristic_targets, stamped) = graph_targets(graph, &caller, call.callee_name.as_str());
    let heuristic_provenance = match stamped {
        Some(p) => p,
        None => attempted_band_provenance(call),
    };
    let line0: u32 = if call.callee_span.start_line == 0 {
        0
    } else {
        call.callee_span.start_line - 1
    };
    let target = resolver.resolve_site(f.path.as_str(), line0, call.callee_span.start_col as usize);
    let scip_target = match target {
        Some(MappedTarget::Node(u)) => if u.same(&caller) {
            None
        } else {
            Some(u)
        },
        _ => None,
    };
    let o = SiteOutcome {
        file: f.path.clone(),
        class: HeuristicClass::BareSingle,
        heuristic_targets,
        scip_target,
        heuristic_provenance,
    };
    assert(o@ =~= graph_outcome(graph@, lang@, repo_name@, *f, *call, code_plane::side_of(Some(resolver))));
    o
}

} // verus!
