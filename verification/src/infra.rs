//! The infrastructure plane: resources of templates, how they are wired, which code they run,
//! which API fields they implement and what they are granted.
//!
//! Every edge is graded by the reference that it comes from. A reference that names a resource of
//! its template is a fact; one that was recovered from an interpolation or a condition is an
//! inference; any other gives no edge.
use vstd::prelude::*;

use crate::analysis::FileEntry;
use crate::code_plane;
use crate::contract;
use crate::contract::{FileSignals, OperationDef};
use crate::model;
use crate::model::{Edge, EdgeKind, EdgeView, Graph, GraphView, NodeKind, NodeView, Provenance, Span, Uid};
use crate::text;

verus! {

/// A reference that names a resource of its template.
pub const CONF_REF_RESOURCE: u32 = 950_000_000;

/// A reference that was recovered from an interpolation or a condition.
pub const CONF_REF_INFERRED: u32 = 700_000_000;

/// The module that a function runs.
pub const CONF_RUNS: u32 = 950_000_000;

/// A field that a resolver chain of facts implements.
pub const CONF_PRODUCES_EXTRACTED: u32 = 950_000_000;

/// A field that a function implements through a chain with an inferred hop.
pub const CONF_PRODUCES_INFERRED: u32 = 700_000_000;

/// A dependency between two Terragrunt units.
pub const CONF_TG_DEP: u32 = 950_000_000;

/// What an infrastructure resource is.
#[derive(Clone, Copy, Debug, PartialEq, Eq, Structural)]
pub enum InfraKind {
    LambdaFunction,
    IamRole,
    IamPolicy,
    AppSyncApi,
    AppSyncResolver,
    AppSyncDataSource,
    Generic,
}

/// A reference in a template, graded by what it names.
#[derive(Debug, PartialEq, Eq)]
pub enum RefValue {
    /// A resource of the template.
    Resource(String),
    /// A resource of the template, recovered from an interpolation or a condition.
    Inferred(String),
    /// One of several resources of the template, by a condition.
    InferredMulti(Vec<String>),
    /// A literal that names no resource.
    Literal(String),
    /// Nothing that the template tells.
    Unresolved(String),
}

/// A resource of a template.
#[derive(Debug, PartialEq, Eq)]
pub struct InfraResource {
    pub logical_id: String,
    pub kind: InfraKind,
    pub role_refs: Vec<RefValue>,
    pub granted_actions: Vec<String>,
    pub grants_opaque: Vec<String>,
    pub handler: Option<String>,
    pub code_uri: Option<String>,
    pub lambda_ref: Option<RefValue>,
    pub data_source_ref: Option<RefValue>,
    pub api_ref: Option<RefValue>,
    pub parent_type: Option<String>,
    pub field_name: Option<String>,
}

/// A template with its resources.
#[derive(Debug, PartialEq, Eq)]
pub struct InfraTemplate {
    pub path: String,
    pub resources: Vec<InfraResource>,
}

/// How the infrastructure plane of a repository linked up.
#[derive(Clone, Copy, Debug, PartialEq, Eq, Structural)]
pub struct InfraLinkCoverage {
    pub templates_detected: usize,
    /// Templates that could not be read. The indexer counts these.
    pub templates_failed: usize,
    pub resources_total: usize,
    /// Resolvers of a root field.
    pub resolvers_total: usize,
    pub resolvers_linked: usize,
    pub resolvers_unlinked: usize,
    pub lambdas_runs_linked: usize,
    pub lambdas_handler_unresolved: usize,
    /// Policies that grant something to no role of the graph.
    pub iam_policy_grants_unattributed: usize,
}

/// The mathematical counts of an [`InfraLinkCoverage`].
pub struct InfraCounts {
    pub resources: nat,
    pub resolvers: nat,
    pub linked: nat,
    pub unlinked: nat,
    pub runs: nat,
    pub unresolved: nat,
    pub unattributed: nat,
}

impl InfraCounts {
    /// Nothing counted.
    pub open spec fn zero() -> InfraCounts {
        InfraCounts { resources: 0, resolvers: 0, linked: 0, unlinked: 0, runs: 0, unresolved: 0, unattributed: 0 }
    }

    /// Every resolver of a root field is either linked or counted as unlinked.
    pub open spec fn balanced(self) -> bool {
        self.resolvers == self.linked + self.unlinked
    }
}

impl InfraLinkCoverage {
    /// Whether these are the counts of `v`, over so many templates.
    pub open spec fn counts(self, v: InfraCounts, templates: nat) -> bool {
        &&& self.templates_detected == templates
        &&& self.templates_failed == 0
        &&& self.resources_total == model::cap(v.resources)
        &&& self.resolvers_total == model::cap(v.resolvers)
        &&& self.resolvers_linked == model::cap(v.linked)
        &&& self.resolvers_unlinked == model::cap(v.unlinked)
        &&& self.lambdas_runs_linked == model::cap(v.runs)
        &&& self.lambdas_handler_unresolved == model::cap(v.unresolved)
        &&& self.iam_policy_grants_unattributed == model::cap(v.unattributed)
    }
}

impl Default for InfraLinkCoverage {
    fn default() -> (r: InfraLinkCoverage)
        ensures
            r.counts(InfraCounts::zero(), 0),
    {
        InfraLinkCoverage {
            templates_detected: 0,
            templates_failed: 0,
            resources_total: 0,
            resolvers_total: 0,
            resolvers_linked: 0,
            resolvers_unlinked: 0,
            lambdas_runs_linked: 0,
            lambdas_handler_unresolved: 0,
            iam_policy_grants_unattributed: 0,
        }
    }
}

/// A graph under construction and the counts so far.
pub struct InfraState {
    pub graph: GraphView,
    pub counts: InfraCounts,
}

// ----------------------------------------------------------------------------------------------
// Nodes
// ----------------------------------------------------------------------------------------------

/// The kind of the node of a resource.
pub open spec fn kind_of(kind: InfraKind) -> NodeKind {
    match kind {
        InfraKind::LambdaFunction => NodeKind::LambdaFn,
        InfraKind::IamRole => NodeKind::IamRole,
        InfraKind::AppSyncApi => NodeKind::AppSyncApi,
        InfraKind::AppSyncResolver => NodeKind::AppSyncResolver,
        InfraKind::AppSyncDataSource => NodeKind::AppSyncDataSource,
        InfraKind::IamPolicy | InfraKind::Generic => NodeKind::CloudResource,
    }
}

/// The kind of the node of a resource.
pub fn node_kind_for(kind: InfraKind) -> (r: NodeKind)
    ensures
        r == kind_of(kind),
{
    match kind {
        InfraKind::LambdaFunction => NodeKind::LambdaFn,
        InfraKind::IamRole => NodeKind::IamRole,
        InfraKind::AppSyncApi => NodeKind::AppSyncApi,
        InfraKind::AppSyncResolver => NodeKind::AppSyncResolver,
        InfraKind::AppSyncDataSource => NodeKind::AppSyncDataSource,
        InfraKind::IamPolicy | InfraKind::Generic => NodeKind::CloudResource,
    }
}

/// The identifier of a resource.
pub open spec fn infra_id(repo: Seq<char>, template: Seq<char>, logical: Seq<char>) -> Seq<char> {
    model::uid_text("infra"@, repo, template, logical, ""@)
}

/// The identifier of a resource.
pub fn infra_uid(repo_name: &str, template_path: &str, logical_id: &str) -> (r: Uid)
    ensures
        r@ == infra_id(repo_name@, template_path@, logical_id@),
{
    Uid::new("infra", repo_name, template_path, logical_id, "")
}

/// The node of a resource.
pub open spec fn resource_node(repo: Seq<char>, template: Seq<char>, res: InfraResource) -> NodeView {
    model::fact_node(
        infra_id(repo, template, res.logical_id@),
        kind_of(res.kind),
        res.logical_id@,
        res.logical_id@,
        template,
        model::no_span(),
    )
}

/// The state with the nodes of the first `n` resources of a template. A policy is counted and is
/// no node: its grants go to the roles that it names.
pub open spec fn with_nodes(s: InfraState, repo: Seq<char>, t: InfraTemplate, n: nat) -> InfraState
    decreases n,
{
    if n == 0 {
        s
    } else {
        let u = with_nodes(s, repo, t, (n - 1) as nat);
        let res = t.resources@[n - 1];
        InfraState {
            graph: if res.kind == InfraKind::IamPolicy {
                u.graph
            } else {
                u.graph.with_node(resource_node(repo, t.path@, res))
            },
            counts: InfraCounts { resources: u.counts.resources + 1, ..u.counts },
        }
    }
}

/// The state with the nodes of the first `n` templates.
pub open spec fn with_all_nodes(s: InfraState, repo: Seq<char>, ts: Seq<InfraTemplate>, n: nat) -> InfraState
    decreases n,
{
    if n == 0 {
        s
    } else {
        let t = ts[n - 1];
        with_nodes(with_all_nodes(s, repo, ts, (n - 1) as nat), repo, t, t.resources@.len())
    }
}

// ----------------------------------------------------------------------------------------------
// References
// ----------------------------------------------------------------------------------------------

/// The resources that a reference may name, each with whether that is an inference.
pub open spec fn ref_targets(r: Option<RefValue>) -> Seq<(Seq<char>, bool)> {
    match r {
        Some(RefValue::Resource(id)) => seq![(id@, false)],
        Some(RefValue::Inferred(id)) => seq![(id@, true)],
        Some(RefValue::InferredMulti(ids)) => Seq::new(ids@.len(), |i: int| (ids@[i]@, true)),
        _ => Seq::empty(),
    }
}

/// A resource that a reference may name.
pub struct RefTarget {
    pub id: String,
    pub inferred: bool,
}

/// The values of a sequence of targets.
pub open spec fn target_views(v: Seq<RefTarget>) -> Seq<(Seq<char>, bool)> {
    Seq::new(v.len(), |i: int| (v[i].id@, v[i].inferred))
}

/// The targets of a reference that is there.
pub open spec fn targets_of(r: RefValue) -> Seq<(Seq<char>, bool)> {
    ref_targets(Some(r))
}

/// The resources that a reference may name.
pub fn targets_of_ref(reference: &RefValue) -> (r: Vec<RefTarget>)
    ensures
        target_views(r@) == targets_of(*reference),
{
    let mut out: Vec<RefTarget> = Vec::new();
    match reference {
        RefValue::Resource(id) => {
            out.push(RefTarget { id: id.clone(), inferred: false });
            assert(target_views(out@) =~= targets_of(*reference));
        },
        RefValue::Inferred(id) => {
            out.push(RefTarget { id: id.clone(), inferred: true });
            assert(target_views(out@) =~= targets_of(*reference));
        },
        RefValue::InferredMulti(ids) => {
            let mut i: usize = 0;
            while i < ids.len()
                invariant
                    i <= ids@.len(),
                    out@.len() == i,
                    forall|j: int| 0 <= j < i ==> (#[trigger] out@[j]).id@ == ids@[j]@ && out@[j].inferred,
                decreases ids@.len() - i,
            {
                out.push(RefTarget { id: ids[i].clone(), inferred: true });
                i = i + 1;
            }
            assert(target_views(out@) =~= targets_of(*reference));
        },
        _ => {
            assert(target_views(out@) =~= targets_of(*reference));
        },
    }
    out
}

/// The resources that a reference may name, where there is one.
pub fn ref_edge_targets(reference: &Option<RefValue>) -> (r: Vec<RefTarget>)
    ensures
        target_views(r@) == ref_targets(*reference),
{
    match reference {
        Some(r) => targets_of_ref(r),
        None => {
            let none: Vec<RefTarget> = Vec::new();
            assert(target_views(none@) =~= ref_targets(*reference));
            none
        },
    }
}

/// The single resource that a reference names, with whether that is an inference: none where it
/// names several.
pub open spec fn single_target(r: Option<RefValue>) -> Option<(Seq<char>, bool)> {
    match r {
        Some(RefValue::Resource(id)) => Some((id@, false)),
        Some(RefValue::Inferred(id)) => Some((id@, true)),
        _ => None,
    }
}

/// The single resource that a reference names.
pub fn resolve_ref_id(reference: &Option<RefValue>) -> (r: Option<(&String, bool)>)
    ensures
        match r {
            Some(p) => single_target(*reference) == Some((p.0@, p.1)),
            None => single_target(*reference) is None,
        },
{
    match reference {
        Some(RefValue::Resource(id)) => Some((id, false)),
        Some(RefValue::Inferred(id)) => Some((id, true)),
        _ => None,
    }
}

/// How an edge of a reference counts.
pub open spec fn ref_grade(inferred: bool) -> (Provenance, u32) {
    if inferred {
        (Provenance::Inferred, CONF_REF_INFERRED)
    } else {
        (Provenance::Extracted, CONF_REF_RESOURCE)
    }
}

/// How an edge of a reference counts.
pub fn grade_ref(inferred: bool) -> (r: (Provenance, u32))
    ensures
        r == ref_grade(inferred),
{
    if inferred {
        (Provenance::Inferred, CONF_REF_INFERRED)
    } else {
        (Provenance::Extracted, CONF_REF_RESOURCE)
    }
}

/// The graph with an edge between `node` and each of the first `n` targets that is a node: from
/// `node`, or toward it where `reversed`. An edge that is among the first `known` is not added again.
pub open spec fn with_ref_edges(
    g: GraphView,
    known: nat,
    node: Seq<char>,
    repo: Seq<char>,
    template: Seq<char>,
    targets: Seq<(Seq<char>, bool)>,
    kind: EdgeKind,
    reversed: bool,
    n: nat,
) -> GraphView
    decreases n,
{
    if n == 0 {
        g
    } else {
        let h = with_ref_edges(g, known, node, repo, template, targets, kind, reversed, (n - 1) as nat);
        let other = infra_id(repo, template, targets[n - 1].0);
        let grade = ref_grade(targets[n - 1].1);
        if h.has(other) {
            if reversed {
                h.with_new_edge(known, model::edge_of(other, node, kind, grade.0, grade.1))
            } else {
                h.with_new_edge(known, model::edge_of(node, other, kind, grade.0, grade.1))
            }
        } else {
            h
        }
    }
}

/// The graph with the edges of a reference, but for those among the first `known`.
pub open spec fn with_ref(
    g: GraphView,
    known: nat,
    node: Seq<char>,
    repo: Seq<char>,
    template: Seq<char>,
    r: Option<RefValue>,
    kind: EdgeKind,
    reversed: bool,
) -> GraphView {
    let targets = ref_targets(r);
    with_ref_edges(g, known, node, repo, template, targets, kind, reversed, targets.len())
}

fn add_ref_edges(
    g: &mut Graph,
    known: usize,
    node: &Uid,
    repo_name: &str,
    template_path: &str,
    targets: &Vec<RefTarget>,
    kind: EdgeKind,
    reversed: bool,
)
    ensures
        final(g)@ == with_ref_edges(
            old(g)@,
            known as nat,
            node@,
            repo_name@,
            template_path@,
            target_views(targets@),
            kind,
            reversed,
            targets@.len(),
        ),
{
    let ghost before = g@;
    let ghost tv = target_views(targets@);
    let mut i: usize = 0;
    while i < targets.len()
        invariant
            i <= targets@.len(),
            tv == target_views(targets@),
            g@ == with_ref_edges(before, known as nat, node@, repo_name@, template_path@, tv, kind, reversed, i as nat),
        decreases targets@.len() - i,
    {
        let t = &targets[i];
        assert(tv[i as int] == (t.id@, t.inferred));
        let other = infra_uid(repo_name, template_path, t.id.as_str());
        if g.has_node(&other) {
            let (prov, conf) = grade_ref(t.inferred);
            if reversed {
                g.add_new_edge(known, Edge::make(&other, node, kind, prov, conf));
            } else {
                g.add_new_edge(known, Edge::make(node, &other, kind, prov, conf));
            }
        }
        i = i + 1;
    }
}

fn add_ref_edge(
    g: &mut Graph,
    known: usize,
    src: &Uid,
    reference: &Option<RefValue>,
    repo_name: &str,
    template_path: &str,
    kind: EdgeKind,
)
    ensures
        final(g)@ == with_ref(old(g)@, known as nat, src@, repo_name@, template_path@, *reference, kind, false),
{
    let targets = ref_edge_targets(reference);
    assert(target_views(targets@).len() == targets@.len());
    add_ref_edges(g, known, src, repo_name, template_path, &targets, kind, false);
}

fn add_contains_edge(
    g: &mut Graph,
    known: usize,
    member: &Uid,
    api_ref: &Option<RefValue>,
    repo_name: &str,
    template_path: &str,
)
    ensures
        final(g)@ == with_ref(
            old(g)@,
            known as nat,
            member@,
            repo_name@,
            template_path@,
            *api_ref,
            EdgeKind::Contains,
            true,
        ),
{
    let targets = ref_edge_targets(api_ref);
    assert(target_views(targets@).len() == targets@.len());
    add_ref_edges(g, known, member, repo_name, template_path, &targets, EdgeKind::Contains, true);
}

/// The graph with the roles that the first `n` role references name, but for edges among the first
/// `known`.
pub open spec fn with_roles(
    g: GraphView,
    known: nat,
    node: Seq<char>,
    repo: Seq<char>,
    template: Seq<char>,
    refs: Seq<RefValue>,
    n: nat,
) -> GraphView
    decreases n,
{
    if n == 0 {
        g
    } else {
        with_ref(
            with_roles(g, known, node, repo, template, refs, (n - 1) as nat),
            known,
            node,
            repo,
            template,
            Some(refs[n - 1]),
            EdgeKind::Assumes,
            false,
        )
    }
}

// ----------------------------------------------------------------------------------------------
// Grants
// ----------------------------------------------------------------------------------------------

/// The identifier of an action.
pub open spec fn action_id(repo: Seq<char>, action: Seq<char>) -> Seq<char> {
    model::uid_text("iam"@, repo, ""@, action, ""@)
}

/// The identifier of an action.
pub fn cloud_action_uid(repo_name: &str, action: &str) -> (r: Uid)
    ensures
        r@ == action_id(repo_name@, action@),
{
    Uid::new("iam", repo_name, "", action, "")
}

/// Whether an edge of this kind leads from `src` to the node `dst`.
pub open spec fn has_edge(g: GraphView, src: Seq<char>, dst: Seq<char>, kind: EdgeKind) -> bool {
    g.has(dst) && exists|i: int|
        0 <= i < g.edges.len() && (#[trigger] g.edges[i]).src == src && g.edges[i].dst == dst && g.edges[i].kind
            == kind
}

/// The graph with an action granted to a role, once.
pub open spec fn with_grant(g: GraphView, repo: Seq<char>, role: Seq<char>, action: Seq<char>) -> GraphView {
    let a = action_id(repo, action);
    if has_edge(g, role, a, EdgeKind::Grants) {
        g
    } else {
        g.with_node(model::fact_node(a, NodeKind::CloudAction, action, action, ""@, model::no_span())).with_edge(
            model::fact_edge(role, a, EdgeKind::Grants),
        )
    }
}

/// The action that stands for grants that cannot be listed.
pub open spec fn opaque_action(reason: Seq<char>) -> Seq<char> {
    "<opaque:"@ + reason + ">"@
}

/// The graph with the first `n` actions granted to a role.
pub open spec fn with_actions(g: GraphView, repo: Seq<char>, role: Seq<char>, actions: Seq<String>, n: nat) -> GraphView
    decreases n,
{
    if n == 0 {
        g
    } else {
        with_grant(with_actions(g, repo, role, actions, (n - 1) as nat), repo, role, actions[n - 1]@)
    }
}

/// The graph with the first `n` unlisted grants marked on a role.
pub open spec fn with_opaque(g: GraphView, repo: Seq<char>, role: Seq<char>, reasons: Seq<String>, n: nat) -> GraphView
    decreases n,
{
    if n == 0 {
        g
    } else {
        with_grant(
            with_opaque(g, repo, role, reasons, (n - 1) as nat),
            repo,
            role,
            opaque_action(reasons[n - 1]@),
        )
    }
}

/// The graph with the grants of a resource given to a role.
pub open spec fn with_grants(g: GraphView, repo: Seq<char>, role: Seq<char>, res: InfraResource) -> GraphView {
    let listed = with_actions(g, repo, role, res.granted_actions@, res.granted_actions@.len());
    with_opaque(listed, repo, role, res.grants_opaque@, res.grants_opaque@.len())
}

fn edge_exists(g: &Graph, src: &Uid, dst: &Uid, kind: EdgeKind) -> (r: bool)
    ensures
        r == has_edge(g@, src@, dst@, kind),
{
    if !g.has_node(dst) {
        return false;
    }
    let mut i: usize = 0;
    while i < g.edges.len()
        invariant
            i <= g.edges@.len(),
            g@.has(dst@),
            forall|j: int|
                0 <= j < i ==> !((#[trigger] g@.edges[j]).src == src@ && g@.edges[j].dst == dst@
                    && g@.edges[j].kind == kind),
        decreases g.edges@.len() - i,
    {
        let e = &g.edges[i];
        assert(g@.edges[i as int] == e@);
        if e.kind == kind && e.src.same(src) && e.dst.same(dst) {
            return true;
        }
        i = i + 1;
    }
    false
}

fn add_grant(g: &mut Graph, repo_name: &str, role_uid: &Uid, action: &str)
    ensures
        final(g)@ == with_grant(old(g)@, repo_name@, role_uid@, action@),
{
    let action_uid = cloud_action_uid(repo_name, action);
    if edge_exists(g, role_uid, &action_uid, EdgeKind::Grants) {
        return ;
    }
    g.add_node(
        model::extracted_node(action_uid.clone(), NodeKind::CloudAction, action, action, "", Span::default()),
    );
    g.add_edge(model::extracted_edge(role_uid, &action_uid, EdgeKind::Grants));
}

fn add_grants(g: &mut Graph, repo_name: &str, role: &Uid, res: &InfraResource)
    ensures
        final(g)@ == with_grants(old(g)@, repo_name@, role@, *res),
{
    let ghost before = g@;
    let mut i: usize = 0;
    while i < res.granted_actions.len()
        invariant
            i <= res.granted_actions@.len(),
            g@ == with_actions(before, repo_name@, role@, res.granted_actions@, i as nat),
        decreases res.granted_actions@.len() - i,
    {
        add_grant(g, repo_name, role, res.granted_actions[i].as_str());
        i = i + 1;
    }
    let ghost listed = g@;
    let mut j: usize = 0;
    while j < res.grants_opaque.len()
        invariant
            j <= res.grants_opaque@.len(),
            g@ == with_opaque(listed, repo_name@, role@, res.grants_opaque@, j as nat),
        decreases res.grants_opaque@.len() - j,
    {
        let marker = text::concat3("<opaque:", res.grants_opaque[j].as_str(), ">");
        add_grant(g, repo_name, role, marker.as_str());
        j = j + 1;
    }
}

/// The graph with the grants of a policy given to each of the first `n` targets that is a node,
/// and whether there was one.
pub open spec fn with_policy_targets(
    s: (GraphView, bool),
    repo: Seq<char>,
    template: Seq<char>,
    res: InfraResource,
    targets: Seq<(Seq<char>, bool)>,
    n: nat,
) -> (GraphView, bool)
    decreases n,
{
    if n == 0 {
        s
    } else {
        let t = with_policy_targets(s, repo, template, res, targets, (n - 1) as nat);
        let role = infra_id(repo, template, targets[n - 1].0);
        if t.0.has(role) {
            (with_grants(t.0, repo, role, res), true)
        } else {
            t
        }
    }
}

/// The graph with the grants of a policy given to the roles of its first `n` references, and
/// whether there was one.
pub open spec fn with_policy(s: (GraphView, bool), repo: Seq<char>, template: Seq<char>, res: InfraResource, n: nat) -> (
    GraphView,
    bool,
)
    decreases n,
{
    if n == 0 {
        s
    } else {
        let targets = targets_of(res.role_refs@[n - 1]);
        with_policy_targets(
            with_policy(s, repo, template, res, (n - 1) as nat),
            repo,
            template,
            res,
            targets,
            targets.len(),
        )
    }
}

fn add_policy(g: &mut Graph, repo_name: &str, template_path: &str, res: &InfraResource) -> (attached: bool)
    ensures
        (final(g)@, attached) == with_policy(
            (old(g)@, false),
            repo_name@,
            template_path@,
            *res,
            res.role_refs@.len(),
        ),
{
    let ghost before = (g@, false);
    let mut attached = false;
    let mut i: usize = 0;
    while i < res.role_refs.len()
        invariant
            i <= res.role_refs@.len(),
            (g@, attached) == with_policy(before, repo_name@, template_path@, *res, i as nat),
        decreases res.role_refs@.len() - i,
    {
        let targets = targets_of_ref(&res.role_refs[i]);
        let ghost tv = target_views(targets@);
        assert(tv.len() == targets@.len());
        let ghost base = (g@, attached);
        let mut j: usize = 0;
        while j < targets.len()
            invariant
                j <= targets@.len(),
                tv == target_views(targets@),
                (g@, attached) == with_policy_targets(
                    base,
                    repo_name@,
                    template_path@,
                    *res,
                    tv,
                    j as nat,
                ),
            decreases targets@.len() - j,
        {
            assert(tv[j as int] == (targets@[j as int].id@, targets@[j as int].inferred));
            let role = infra_uid(repo_name, template_path, targets[j].id.as_str());
            if g.has_node(&role) {
                attached = true;
                add_grants(g, repo_name, &role, res);
            }
            j = j + 1;
        }
        i = i + 1;
    }
    attached
}

// ----------------------------------------------------------------------------------------------
// The module that a function runs
// ----------------------------------------------------------------------------------------------

/// The extensions of a file that can hold a handler.
pub open spec fn handler_exts() -> Seq<Seq<char>> {
    seq!["ts"@, "tsx"@, "js"@, "jsx"@, "mjs"@, "cjs"@, "py"@, "pyi"@]
}

/// A directory without a leading `./`, trailing slashes and surrounding white space: empty for the
/// current directory.
pub open spec fn clean_dir(code_uri: Seq<char>) -> Seq<char> {
    let t = text::trimmed(code_uri);
    let u = if text::begins(t, "./"@) {
        t.skip(2)
    } else {
        t
    };
    let v = text::trimmed_end_char(u, '/');
    if v == "."@ {
        Seq::empty()
    } else {
        v
    }
}

/// A directory without a leading `./`, trailing slashes and surrounding white space.
pub fn normalize_dir(code_uri: &str) -> (r: String)
    ensures
        r@ == clean_dir(code_uri@),
{
    let t = text::trim(code_uri);
    let u = if text::starts_with(t.as_str(), "./") {
        proof {
            reveal_strlit("./");
        }
        text::skip_chars(t.as_str(), 2)
    } else {
        t
    };
    let v = text::trim_end_char(u.as_str(), '/');
    if text::same(v.as_str(), ".") {
        String::new()
    } else {
        v
    }
}

/// A file in a directory: the file alone where the directory is empty.
pub open spec fn in_dir(dir: Seq<char>, file: Seq<char>) -> Seq<char> {
    if dir.len() == 0 {
        file
    } else {
        dir + "/"@ + file
    }
}

/// A file in a directory.
pub fn join_repo_rel(dir: &str, file: &str) -> (r: String)
    ensures
        r@ == in_dir(dir@, file@),
{
    if dir.unicode_len() == 0 {
        file.to_owned()
    } else {
        text::concat3(dir, "/", file)
    }
}

/// What stands before the last dot of a handler: all of it where there is no dot.
pub open spec fn handler_stem(handler: Seq<char>) -> Seq<char> {
    match text::last_position(handler, '.') {
        Some(i) => handler.take(i),
        None => handler,
    }
}

/// The directory that a handler is looked for in: the code directory, relative to the directory of
/// the template.
pub open spec fn handler_base(template: Seq<char>, code_uri: Option<String>) -> Seq<char> {
    let dir = text::before_last(template, '/');
    let code = match code_uri {
        Some(u) => clean_dir(u@),
        None => Seq::empty(),
    };
    if code.len() == 0 {
        dir
    } else {
        in_dir(dir, code)
    }
}

/// The files that can hold a handler, one for each extension.
pub open spec fn handler_files(template: Seq<char>, code_uri: Option<String>, handler: Seq<char>) -> Seq<Seq<char>> {
    Seq::new(
        handler_exts().len(),
        |i: int| in_dir(handler_base(template, code_uri), handler_stem(handler) + "."@ + handler_exts()[i]),
    )
}

/// The files that can hold a handler.
pub fn handler_candidate_paths(template_path: &str, code_uri: &Option<String>, handler: &str) -> (r: Vec<String>)
    ensures
        text::views(r@) == handler_files(template_path@, *code_uri, handler@),
{
    let hv = text::chars_of(handler);
    let stem = match text::rfind(&hv, '.') {
        Some(i) => text::slice_text(&hv, 0, i),
        None => handler.to_owned(),
    };
    assert(stem@ =~= handler_stem(handler@));
    let dir = text::before_last_of(template_path, '/');
    let code = match code_uri {
        Some(u) => normalize_dir(u.as_str()),
        None => String::new(),
    };
    let base = if code.as_str().unicode_len() == 0 {
        dir
    } else {
        join_repo_rel(dir.as_str(), code.as_str())
    };
    let exts: Vec<&str> = vec!["ts", "tsx", "js", "jsx", "mjs", "cjs", "py", "pyi"];
    assert(exts@.len() == handler_exts().len());
    assert(forall|k: int| 0 <= k < 8 ==> (#[trigger] exts@[k])@ == handler_exts()[k]);
    let mut out: Vec<String> = Vec::new();
    let mut i: usize = 0;
    while i < exts.len()
        invariant
            i <= exts@.len(),
            exts@.len() == 8,
            handler_exts().len() == 8,
            forall|k: int| 0 <= k < 8 ==> (#[trigger] exts@[k])@ == handler_exts()[k],
            base@ == handler_base(template_path@, *code_uri),
            stem@ == handler_stem(handler@),
            out@.len() == i,
            forall|k: int|
                0 <= k < i ==> (#[trigger] out@[k])@ == handler_files(template_path@, *code_uri, handler@)[k],
        decreases exts@.len() - i,
    {
        let file = text::concat3(stem.as_str(), ".", exts[i]);
        out.push(join_repo_rel(base.as_str(), file.as_str()));
        i = i + 1;
    }
    assert(text::views(out@) =~= handler_files(template_path@, *code_uri, handler@));
    out
}

/// Whether a file of this path was analyzed.
pub open spec fn is_indexed(files: Seq<FileEntry>, path: Seq<char>) -> bool {
    exists|i: int| 0 <= i < files.len() && (#[trigger] files[i]).path@ == path
}

fn indexed(files: &Vec<FileEntry>, path: &str) -> (r: bool)
    ensures
        r == is_indexed(files@, path@),
{
    let mut i: usize = 0;
    while i < files.len()
        invariant
            i <= files@.len(),
            forall|j: int| 0 <= j < i ==> (#[trigger] files@[j]).path@ != path@,
        decreases files@.len() - i,
    {
        if text::same(files[i].path.as_str(), path) {
            return true;
        }
        i = i + 1;
    }
    false
}

/// How many of the first `n` paths were analyzed.
pub open spec fn indexed_count(files: Seq<FileEntry>, paths: Seq<Seq<char>>, n: nat) -> nat
    decreases n,
{
    if n == 0 {
        0
    } else {
        indexed_count(files, paths, (n - 1) as nat) + if is_indexed(files, paths[n - 1]) { 1nat } else { 0 }
    }
}

/// The last of the first `n` paths that was analyzed.
pub open spec fn last_indexed(files: Seq<FileEntry>, paths: Seq<Seq<char>>, n: nat) -> Seq<char>
    decreases n,
{
    if n == 0 {
        Seq::empty()
    } else if is_indexed(files, paths[n - 1]) {
        paths[n - 1]
    } else {
        last_indexed(files, paths, (n - 1) as nat)
    }
}

/// The module node of a file that holds a handler, under its language.
pub open spec fn handler_module(repo: Seq<char>, path: Seq<char>) -> Seq<char> {
    let ext = text::after_last(path, '.');
    if ext == "py"@ || ext == "pyi"@ {
        model::uid_text("py"@, repo, path, "<module>"@, ""@)
    } else {
        code_plane::module_uid(repo, path)
    }
}

/// The module node of a file that holds a handler.
pub fn module_uid_for(repo_name: &str, path: &str) -> (r: Uid)
    ensures
        r@ == handler_module(repo_name@, path@),
{
    let ext = text::after_last_of(path, '.');
    if text::same(ext.as_str(), "py") || text::same(ext.as_str(), "pyi") {
        Uid::new("py", repo_name, path, "<module>", "")
    } else {
        code_plane::uid_module(repo_name, path)
    }
}

/// The state with the module that a function runs: linked where exactly one file can hold its
/// handler, counted as unresolved where none or several can. An edge among the first `known` is not
/// added again.
pub open spec fn with_runs(
    s: InfraState,
    known: nat,
    repo: Seq<char>,
    template: Seq<char>,
    res: InfraResource,
    files: Seq<FileEntry>,
) -> InfraState {
    match res.handler {
        None => s,
        Some(handler) => {
            let paths = handler_files(template, res.code_uri, handler@);
            if indexed_count(files, paths, paths.len()) == 1 {
                InfraState {
                    graph: s.graph.with_new_edge(
                        known,
                        model::edge_of(
                            infra_id(repo, template, res.logical_id@),
                            handler_module(repo, last_indexed(files, paths, paths.len())),
                            EdgeKind::Runs,
                            Provenance::Extracted,
                            CONF_RUNS,
                        ),
                    ),
                    counts: InfraCounts { runs: s.counts.runs + 1, ..s.counts },
                }
            } else {
                InfraState {
                    graph: s.graph,
                    counts: InfraCounts { unresolved: s.counts.unresolved + 1, ..s.counts },
                }
            }
        },
    }
}

fn link_runs(
    g: &mut Graph,
    known: usize,
    lambda_uid: &Uid,
    res: &InfraResource,
    repo_name: &str,
    template_path: &str,
    analyzed: &Vec<FileEntry>,
    cov: &mut InfraLinkCoverage,
    Ghost(c): Ghost<InfraCounts>,
    Ghost(ts): Ghost<nat>,
)
    requires
        old(cov).counts(c, ts),
        lambda_uid@ == infra_id(repo_name@, template_path@, res.logical_id@),
    ensures
        ({
            let s = InfraState { graph: old(g)@, counts: c };
            let e = with_runs(s, known as nat, repo_name@, template_path@, *res, analyzed@);
            final(g)@ == e.graph && final(cov).counts(e.counts, ts)
        }),
{
    match &res.handler {
        None => {},
        Some(handler) => {
            let paths = handler_candidate_paths(template_path, &res.code_uri, handler.as_str());
            let ghost pv = text::views(paths@);
            assert(pv.len() == paths@.len());
            let mut count: usize = 0;
            let mut at: usize = 0;
            let mut i: usize = 0;
            while i < paths.len()
                invariant
                    i <= paths@.len(),
                    pv == text::views(paths@),
                    count <= i,
                    count == indexed_count(analyzed@, pv, i as nat),
                    count > 0 ==> at < paths@.len() && paths@[at as int]@ == last_indexed(
                        analyzed@,
                        pv,
                        i as nat,
                    ),
                decreases paths@.len() - i,
            {
                assert(pv[i as int] == paths@[i as int]@);
                if indexed(analyzed, paths[i].as_str()) {
                    count = count + 1;
                    at = i;
                }
                i = i + 1;
            }
            if count == 1 {
                let module = module_uid_for(repo_name, paths[at].as_str());
                g.add_new_edge(
                    known,
                    Edge::make(lambda_uid, &module, EdgeKind::Runs, Provenance::Extracted, CONF_RUNS),
                );
                cov.lambdas_runs_linked = model::bump(cov.lambdas_runs_linked);
            } else {
                cov.lambdas_handler_unresolved = model::bump(cov.lambdas_handler_unresolved);
            }
        },
    }
}

// ----------------------------------------------------------------------------------------------
// The field that a resolver implements
// ----------------------------------------------------------------------------------------------

/// A GraphQL field of the graph, by its name.
pub struct FieldEntry {
    pub key: String,
    pub uid: Uid,
}

/// The values of a sequence of fields.
pub open spec fn field_views(v: Seq<FieldEntry>) -> Seq<(Seq<char>, Seq<char>)> {
    Seq::new(v.len(), |i: int| (v[i].key@, v[i].uid@))
}

/// The GraphQL fields among the first `n` nodes.
pub open spec fn fields_of(nodes: Seq<NodeView>, n: nat) -> Seq<(Seq<char>, Seq<char>)>
    decreases n,
{
    if n == 0 {
        Seq::empty()
    } else {
        let rest = fields_of(nodes, (n - 1) as nat);
        if nodes[n - 1].kind == NodeKind::GraphqlField {
            rest.push((nodes[n - 1].fqn, nodes[n - 1].uid))
        } else {
            rest
        }
    }
}

/// The last of the first `n` fields of this name.
pub open spec fn field_named(fields: Seq<(Seq<char>, Seq<char>)>, key: Seq<char>, n: nat) -> Option<Seq<char>>
    decreases n,
{
    if n == 0 {
        None
    } else if fields[n - 1].0 == key {
        Some(fields[n - 1].1)
    } else {
        field_named(fields, key, (n - 1) as nat)
    }
}

fn collect_fields(g: &Graph) -> (r: Vec<FieldEntry>)
    ensures
        field_views(r@) == fields_of(g@.nodes, g@.nodes.len()),
{
    let mut out: Vec<FieldEntry> = Vec::new();
    assert(field_views(out@) =~= fields_of(g@.nodes, 0));
    let mut i: usize = 0;
    while i < g.nodes.len()
        invariant
            i <= g.nodes@.len(),
            field_views(out@) == fields_of(g@.nodes, i as nat),
        decreases g.nodes@.len() - i,
    {
        let n = &g.nodes[i];
        assert(g@.nodes[i as int] == n@);
        if n.kind == NodeKind::GraphqlField {
            let ghost before = field_views(out@);
            out.push(FieldEntry { key: n.fqn.clone(), uid: n.uid.clone() });
            assert(field_views(out@) =~= before.push((n.fqn@, n.uid@)));
        }
        i = i + 1;
    }
    out
}

fn find_field(fields: &Vec<FieldEntry>, key: &str) -> (r: Option<usize>)
    ensures
        match r {
            Some(i) => i < fields@.len() && field_named(field_views(fields@), key@, fields@.len()) == Some(
                fields@[i as int].uid@,
            ),
            None => field_named(field_views(fields@), key@, fields@.len()) is None,
        },
{
    let ghost fv = field_views(fields@);
    let mut n: usize = fields.len();
    while n > 0
        invariant
            n <= fields@.len(),
            fv == field_views(fields@),
            field_named(fv, key@, fields@.len()) == field_named(fv, key@, n as nat),
        decreases n,
    {
        assert(fv[n - 1] == (fields@[n - 1].key@, fields@[n - 1].uid@));
        if text::same(fields[n - 1].key.as_str(), key) {
            return Some(n - 1);
        }
        n = n - 1;
    }
    None
}

/// Whether a type is a root of the API.
pub open spec fn root_type(name: Seq<char>) -> bool {
    name == "Query"@ || name == "Mutation"@ || name == "Subscription"@
}

/// Whether a type is a root of the API.
pub fn is_root_type(parent_type: &str) -> (r: bool)
    ensures
        r == root_type(parent_type@),
{
    text::same(parent_type, "Query") || text::same(parent_type, "Mutation") || text::same(parent_type, "Subscription")
}

/// The position of the last of the first `n` resources with this id, or -1.
pub open spec fn resource_at(resources: Seq<InfraResource>, id: Seq<char>, n: nat) -> int
    decreases n,
{
    if n == 0 {
        -1
    } else if resources[n - 1].logical_id@ == id {
        n - 1
    } else {
        resource_at(resources, id, (n - 1) as nat)
    }
}

fn find_resource(resources: &Vec<InfraResource>, id: &str) -> (r: Option<usize>)
    ensures
        match r {
            Some(i) => i < resources@.len() && resource_at(resources@, id@, resources@.len()) == i,
            None => resource_at(resources@, id@, resources@.len()) < 0,
        },
{
    let mut n: usize = resources.len();
    while n > 0
        invariant
            n <= resources@.len(),
            resource_at(resources@, id@, resources@.len()) == resource_at(resources@, id@, n as nat),
        decreases n,
    {
        if text::same(resources[n - 1].logical_id.as_str(), id) {
            return Some(n - 1);
        }
        n = n - 1;
    }
    None
}

/// The resource that a reference leads to, if it is of this kind, with whether that is an
/// inference.
pub open spec fn hop(resources: Seq<InfraResource>, r: Option<RefValue>, kind: InfraKind) -> Option<(int, bool)> {
    match single_target(r) {
        Some(t) => {
            let at = resource_at(resources, t.0, resources.len());
            if at >= 0 && resources[at].kind == kind {
                Some((at, t.1))
            } else {
                None
            }
        },
        None => None,
    }
}

fn follow(resources: &Vec<InfraResource>, reference: &Option<RefValue>, kind: InfraKind) -> (r: Option<(usize, bool)>)
    ensures
        match r {
            Some(p) => p.0 < resources@.len() && hop(resources@, *reference, kind) == Some((p.0 as int, p.1)),
            None => hop(resources@, *reference, kind) is None,
        },
{
    match resolve_ref_id(reference) {
        Some((id, inferred)) => match find_resource(resources, id.as_str()) {
            Some(i) => if resources[i].kind == kind {
                Some((i, inferred))
            } else {
                None
            },
            None => None,
        },
        None => None,
    }
}

/// What implements the field of a resolver: the function at the end of its chain, at the grade of
/// the weakest hop; the resolver itself, as a fact, where the chain breaks.
pub open spec fn producer_of(g: GraphView, repo: Seq<char>, t: InfraTemplate, resolver: InfraResource) -> (
    Seq<char>,
    Provenance,
    u32,
) {
    let own = (
        infra_id(repo, t.path@, resolver.logical_id@),
        Provenance::Extracted,
        CONF_PRODUCES_EXTRACTED,
    );
    match hop(t.resources@, resolver.data_source_ref, InfraKind::AppSyncDataSource) {
        None => own,
        Some(ds) => match hop(t.resources@, t.resources@[ds.0].lambda_ref, InfraKind::LambdaFunction) {
            None => own,
            Some(lambda) => {
                let uid = infra_id(repo, t.path@, t.resources@[lambda.0].logical_id@);
                if !g.has(uid) {
                    own
                } else if ds.1 || lambda.1 {
                    (uid, Provenance::Inferred, CONF_PRODUCES_INFERRED)
                } else {
                    (uid, Provenance::Extracted, CONF_PRODUCES_EXTRACTED)
                }
            },
        },
    }
}

fn produces_source(g: &Graph, repo_name: &str, template: &InfraTemplate, resolver: &InfraResource) -> (r: (
    Uid,
    Provenance,
    u32,
))
    ensures
        (r.0@, r.1, r.2) == producer_of(g@, repo_name@, *template, *resolver),
{
    let path = template.path.as_str();
    match follow(&template.resources, &resolver.data_source_ref, InfraKind::AppSyncDataSource) {
        Some((ds, ds_inferred)) => {
            match follow(&template.resources, &template.resources[ds].lambda_ref, InfraKind::LambdaFunction) {
                Some((lambda, lambda_inferred)) => {
                    let uid = infra_uid(repo_name, path, template.resources[lambda].logical_id.as_str());
                    if g.has_node(&uid) {
                        return if ds_inferred || lambda_inferred {
                            (uid, Provenance::Inferred, CONF_PRODUCES_INFERRED)
                        } else {
                            (uid, Provenance::Extracted, CONF_PRODUCES_EXTRACTED)
                        };
                    }
                },
                None => {},
            }
        },
        None => {},
    }
    (infra_uid(repo_name, path, resolver.logical_id.as_str()), Provenance::Extracted, CONF_PRODUCES_EXTRACTED)
}

/// The state with the field that a resolver implements: only a resolver of a root field counts. An
/// edge among the first `known` is not added again.
pub open spec fn with_field(
    s: InfraState,
    known: nat,
    repo: Seq<char>,
    t: InfraTemplate,
    resolver: InfraResource,
    fields: Seq<(Seq<char>, Seq<char>)>,
) -> InfraState {
    match (resolver.parent_type, resolver.field_name) {
        (Some(ty), Some(field)) => if !root_type(ty@) {
            s
        } else {
            match field_named(fields, ty@ + "."@ + field@, fields.len()) {
                None => InfraState {
                    graph: s.graph,
                    counts: InfraCounts {
                        resolvers: s.counts.resolvers + 1,
                        unlinked: s.counts.unlinked + 1,
                        ..s.counts
                    },
                },
                Some(uid) => {
                    let p = producer_of(s.graph, repo, t, resolver);
                    InfraState {
                        graph: s.graph.with_new_edge(known, model::edge_of(p.0, uid, EdgeKind::Produces, p.1, p.2)),
                        counts: InfraCounts {
                            resolvers: s.counts.resolvers + 1,
                            linked: s.counts.linked + 1,
                            ..s.counts
                        },
                    }
                },
            }
        },
        _ => s,
    }
}

fn link_produces(
    g: &mut Graph,
    known: usize,
    resolver: &InfraResource,
    repo_name: &str,
    template: &InfraTemplate,
    fields: &Vec<FieldEntry>,
    cov: &mut InfraLinkCoverage,
    Ghost(c): Ghost<InfraCounts>,
    Ghost(ts): Ghost<nat>,
)
    requires
        old(cov).counts(c, ts),
    ensures
        ({
            let s = InfraState { graph: old(g)@, counts: c };
            let e = with_field(s, known as nat, repo_name@, *template, *resolver, field_views(fields@));
            final(g)@ == e.graph && final(cov).counts(e.counts, ts)
        }),
{
    assert(field_views(fields@).len() == fields@.len());
    match (&resolver.parent_type, &resolver.field_name) {
        (Some(parent_type), Some(field_name)) => {
            if !is_root_type(parent_type.as_str()) {
                return ;
            }
            cov.resolvers_total = model::bump(cov.resolvers_total);
            let key = text::concat3(parent_type.as_str(), ".", field_name.as_str());
            match find_field(fields, key.as_str()) {
                None => {
                    cov.resolvers_unlinked = model::bump(cov.resolvers_unlinked);
                },
                Some(i) => {
                    let (src, prov, conf) = produces_source(g, repo_name, template, resolver);
                    g.add_new_edge(known, Edge::make(&src, &fields[i].uid, EdgeKind::Produces, prov, conf));
                    cov.resolvers_linked = model::bump(cov.resolvers_linked);
                },
            }
        },
        _ => {},
    }
}

// ----------------------------------------------------------------------------------------------
// The plane
// ----------------------------------------------------------------------------------------------

/// The graph with the roles and the grants of a resource, other than a policy.
pub open spec fn with_own_grants(
    g: GraphView,
    known: nat,
    repo: Seq<char>,
    template: Seq<char>,
    res: InfraResource,
) -> GraphView {
    let node = infra_id(repo, template, res.logical_id@);
    let roles = with_roles(g, known, node, repo, template, res.role_refs@, res.role_refs@.len());
    with_grants(roles, repo, node, res)
}

/// Whether a resource grants anything.
pub open spec fn grants_something(res: InfraResource) -> bool {
    res.granted_actions@.len() > 0 || res.grants_opaque@.len() > 0
}

/// The state with the edges of a resource, where the graph had `known` edges before the plane.
pub open spec fn with_resource(
    s: InfraState,
    known: nat,
    repo: Seq<char>,
    t: InfraTemplate,
    res: InfraResource,
    files: Seq<FileEntry>,
    fields: Seq<(Seq<char>, Seq<char>)>,
) -> InfraState {
    let node = infra_id(repo, t.path@, res.logical_id@);
    let a = InfraState {
        graph: if res.kind == InfraKind::IamPolicy {
            s.graph
        } else {
            with_own_grants(s.graph, known, repo, t.path@, res)
        },
        counts: s.counts,
    };
    match res.kind {
        InfraKind::LambdaFunction => with_runs(a, known, repo, t.path@, res, files),
        InfraKind::AppSyncDataSource => InfraState {
            graph: with_ref(
                with_ref(a.graph, known, node, repo, t.path@, res.lambda_ref, EdgeKind::Routes, false),
                known,
                node,
                repo,
                t.path@,
                res.api_ref,
                EdgeKind::Contains,
                true,
            ),
            counts: a.counts,
        },
        InfraKind::AppSyncResolver => with_field(
            InfraState {
                graph: with_ref(
                    with_ref(a.graph, known, node, repo, t.path@, res.data_source_ref, EdgeKind::Routes, false),
                    known,
                    node,
                    repo,
                    t.path@,
                    res.api_ref,
                    EdgeKind::Contains,
                    true,
                ),
                counts: a.counts,
            },
            known,
            repo,
            t,
            res,
            fields,
        ),
        InfraKind::IamPolicy => {
            let p = with_policy((a.graph, false), repo, t.path@, res, res.role_refs@.len());
            InfraState {
                graph: p.0,
                counts: if !p.1 && grants_something(res) {
                    InfraCounts { unattributed: a.counts.unattributed + 1, ..a.counts }
                } else {
                    a.counts
                },
            }
        },
        InfraKind::IamRole | InfraKind::AppSyncApi | InfraKind::Generic => a,
    }
}

/// The state with the edges of the first `n` resources of a template.
pub open spec fn with_resources(
    s: InfraState,
    known: nat,
    repo: Seq<char>,
    t: InfraTemplate,
    files: Seq<FileEntry>,
    fields: Seq<(Seq<char>, Seq<char>)>,
    n: nat,
) -> InfraState
    decreases n,
{
    if n == 0 {
        s
    } else {
        with_resource(
            with_resources(s, known, repo, t, files, fields, (n - 1) as nat),
            known,
            repo,
            t,
            t.resources@[n - 1],
            files,
            fields,
        )
    }
}

/// The state with the edges of the first `n` templates.
pub open spec fn with_all_resources(
    s: InfraState,
    known: nat,
    repo: Seq<char>,
    ts: Seq<InfraTemplate>,
    files: Seq<FileEntry>,
    fields: Seq<(Seq<char>, Seq<char>)>,
    n: nat,
) -> InfraState
    decreases n,
{
    if n == 0 {
        s
    } else {
        let t = ts[n - 1];
        with_resources(
            with_all_resources(s, known, repo, ts, files, fields, (n - 1) as nat),
            known,
            repo,
            t,
            files,
            fields,
            t.resources@.len(),
        )
    }
}

/// The infrastructure plane on top of `g`. The fields that resolvers implement are those that `g`
/// has. An edge that `g` has is not added again; one that the templates give several times is added
/// as often.
pub open spec fn infra_plane(g: GraphView, repo: Seq<char>, ts: Seq<InfraTemplate>, files: Seq<FileEntry>) -> InfraState {
    let s = InfraState { graph: g, counts: InfraCounts::zero() };
    with_all_resources(
        with_all_nodes(s, repo, ts, ts.len()),
        g.edges.len(),
        repo,
        ts,
        files,
        fields_of(g.nodes, g.nodes.len()),
        ts.len(),
    )
}

fn add_resource(
    g: &mut Graph,
    known: usize,
    repo_name: &str,
    template: &InfraTemplate,
    res: &InfraResource,
    analyzed: &Vec<FileEntry>,
    fields: &Vec<FieldEntry>,
    cov: &mut InfraLinkCoverage,
    Ghost(c): Ghost<InfraCounts>,
    Ghost(ts): Ghost<nat>,
)
    requires
        old(cov).counts(c, ts),
    ensures
        ({
            let s = InfraState { graph: old(g)@, counts: c };
            let e = with_resource(s, known as nat, repo_name@, *template, *res, analyzed@, field_views(fields@));
            final(g)@ == e.graph && final(cov).counts(e.counts, ts)
        }),
{
    let path = template.path.as_str();
    let src = infra_uid(repo_name, path, res.logical_id.as_str());
    if res.kind != InfraKind::IamPolicy {
        let ghost before = g@;
        let mut i: usize = 0;
        while i < res.role_refs.len()
            invariant
                i <= res.role_refs@.len(),
                path@ == template.path@,
                g@ == with_roles(before, known as nat, src@, repo_name@, path@, res.role_refs@, i as nat),
            decreases res.role_refs@.len() - i,
        {
            let targets = targets_of_ref(&res.role_refs[i]);
            assert(target_views(targets@).len() == targets@.len());
            add_ref_edges(g, known, &src, repo_name, path, &targets, EdgeKind::Assumes, false);
            i = i + 1;
        }
        add_grants(g, repo_name, &src, res);
    }
    match res.kind {
        InfraKind::LambdaFunction => {
            link_runs(g, known, &src, res, repo_name, path, analyzed, cov, Ghost(c), Ghost(ts));
        },
        InfraKind::AppSyncDataSource => {
            add_ref_edge(g, known, &src, &res.lambda_ref, repo_name, path, EdgeKind::Routes);
            add_contains_edge(g, known, &src, &res.api_ref, repo_name, path);
        },
        InfraKind::AppSyncResolver => {
            add_ref_edge(g, known, &src, &res.data_source_ref, repo_name, path, EdgeKind::Routes);
            add_contains_edge(g, known, &src, &res.api_ref, repo_name, path);
            link_produces(g, known, res, repo_name, template, fields, cov, Ghost(c), Ghost(ts));
        },
        InfraKind::IamPolicy => {
            let attached = add_policy(g, repo_name, path, res);
            if !attached && (res.granted_actions.len() > 0 || res.grants_opaque.len() > 0) {
                cov.iam_policy_grants_unattributed = model::bump(cov.iam_policy_grants_unattributed);
            }
        },
        InfraKind::IamRole | InfraKind::AppSyncApi | InfraKind::Generic => {},
    }
}

/// Adds the infrastructure plane of a repository and reports how it linked up.
pub fn build_infra_plane(
    g: &mut Graph,
    repo_name: &str,
    templates: &Vec<InfraTemplate>,
    analyzed: &Vec<FileEntry>,
) -> (r: InfraLinkCoverage)
    ensures
        final(g)@ == infra_plane(old(g)@, repo_name@, templates@, analyzed@).graph,
        r.counts(infra_plane(old(g)@, repo_name@, templates@, analyzed@).counts, templates@.len()),
{
    let mut cov = InfraLinkCoverage::default();
    let known: usize = g.edges.len();
    let fields = collect_fields(g);
    let ghost fv = field_views(fields@);
    let ghost ts = templates@.len();
    let ghost s0 = InfraState { graph: g@, counts: InfraCounts::zero() };
    cov.templates_detected = templates.len();
    let mut i: usize = 0;
    while i < templates.len()
        invariant
            i <= templates@.len(),
            ts == templates@.len(),
            g@ == with_all_nodes(s0, repo_name@, templates@, i as nat).graph,
            cov.counts(with_all_nodes(s0, repo_name@, templates@, i as nat).counts, ts),
        decreases templates@.len() - i,
    {
        let t = &templates[i];
        let ghost base = with_all_nodes(s0, repo_name@, templates@, i as nat);
        let mut j: usize = 0;
        while j < t.resources.len()
            invariant
                j <= t.resources@.len(),
                g@ == with_nodes(base, repo_name@, *t, j as nat).graph,
                cov.counts(with_nodes(base, repo_name@, *t, j as nat).counts, ts),
            decreases t.resources@.len() - j,
        {
            let res = &t.resources[j];
            cov.resources_total = model::bump(cov.resources_total);
            if res.kind != InfraKind::IamPolicy {
                let id = res.logical_id.as_str();
                g.add_node(
                    model::extracted_node(
                        infra_uid(repo_name, t.path.as_str(), id),
                        node_kind_for(res.kind),
                        id,
                        id,
                        t.path.as_str(),
                        Span::default(),
                    ),
                );
            }
            j = j + 1;
        }
        i = i + 1;
    }
    let ghost s1 = with_all_nodes(s0, repo_name@, templates@, templates@.len());
    let mut k: usize = 0;
    while k < templates.len()
        invariant
            k <= templates@.len(),
            ts == templates@.len(),
            fv == field_views(fields@),
            g@ == with_all_resources(s1, known as nat, repo_name@, templates@, analyzed@, fv, k as nat).graph,
            cov.counts(
                with_all_resources(s1, known as nat, repo_name@, templates@, analyzed@, fv, k as nat).counts,
                ts,
            ),
        decreases templates@.len() - k,
    {
        let t = &templates[k];
        let ghost base = with_all_resources(s1, known as nat, repo_name@, templates@, analyzed@, fv, k as nat);
        let mut j: usize = 0;
        while j < t.resources.len()
            invariant
                j <= t.resources@.len(),
                fv == field_views(fields@),
                g@ == with_resources(base, known as nat, repo_name@, *t, analyzed@, fv, j as nat).graph,
                cov.counts(with_resources(base, known as nat, repo_name@, *t, analyzed@, fv, j as nat).counts, ts),
            decreases t.resources@.len() - j,
        {
            add_resource(
                g,
                known,
                repo_name,
                t,
                &t.resources[j],
                analyzed,
                &fields,
                &mut cov,
                Ghost(with_resources(base, known as nat, repo_name@, *t, analyzed@, fv, j as nat).counts),
                Ghost(ts),
            );
            j = j + 1;
        }
        k = k + 1;
    }
    cov
}

/// The code plane of a set of files, by names alone, with the contract plane and the
/// infrastructure plane on top.
pub fn assemble_graph_with_infra(
    analyzed: &Vec<FileEntry>,
    repo_name: &str,
    operations: &Vec<OperationDef>,
    signals: &Vec<FileSignals>,
    templates: &Vec<InfraTemplate>,
) -> (r: (Graph, InfraLinkCoverage))
    ensures
        ({
            let code = code_plane::code_plane(repo_name@, analyzed@, None, Seq::empty()).0;
            let base = contract::contract_plane(code, repo_name@, analyzed@, operations@, signals@);
            let e = infra_plane(base, repo_name@, templates@, analyzed@);
            r.0@ == e.graph && r.1.counts(e.counts, templates@.len())
        }),
{
    let mut g = contract::assemble_graph_with_contracts(analyzed, repo_name, operations, signals);
    let cov = build_infra_plane(&mut g, repo_name, templates, analyzed);
    (g, cov)
}

// ----------------------------------------------------------------------------------------------
// Terragrunt
// ----------------------------------------------------------------------------------------------

/// A dependency of a Terragrunt unit: the literal path of another.
#[derive(Debug, PartialEq, Eq)]
pub struct TerragruntDependency {
    pub name: String,
    pub config_path: String,
}

/// A Terragrunt unit.
#[derive(Debug, PartialEq, Eq)]
pub struct TerragruntUnit {
    pub path: String,
    pub dependencies: Vec<TerragruntDependency>,
}

/// How the Terragrunt units of a repository linked up.
#[derive(Clone, Copy, Debug, PartialEq, Eq, Structural)]
pub struct TerragruntCoverage {
    pub units_detected: usize,
    pub deps_total: usize,
    pub deps_linked: usize,
    pub deps_unresolved: usize,
}

impl Default for TerragruntCoverage {
    fn default() -> (r: TerragruntCoverage)
        ensures
            r.units_detected == 0,
            r.counts(DepCounts::zero()),
    {
        TerragruntCoverage { units_detected: 0, deps_total: 0, deps_linked: 0, deps_unresolved: 0 }
    }
}

/// The mathematical counts of the dependencies.
pub struct DepCounts {
    pub total: nat,
    pub linked: nat,
    pub unresolved: nat,
}

impl DepCounts {
    /// Nothing counted.
    pub open spec fn zero() -> DepCounts {
        DepCounts { total: 0, linked: 0, unresolved: 0 }
    }

    /// Every dependency is either linked or counted as unresolved.
    pub open spec fn balanced(self) -> bool {
        self.total == self.linked + self.unresolved
    }
}

impl TerragruntCoverage {
    /// Whether these are the counts of `v`.
    pub open spec fn counts(self, v: DepCounts) -> bool {
        &&& self.deps_total == model::cap(v.total)
        &&& self.deps_linked == model::cap(v.linked)
        &&& self.deps_unresolved == model::cap(v.unresolved)
    }
}

/// The directory of a unit: the current directory for a unit at the root.
pub open spec fn dir_of(path: Seq<char>) -> Seq<char> {
    match text::last_position(path, '/') {
        Some(i) => path.take(i),
        None => "."@,
    }
}

/// The directory of a unit.
pub fn unit_dir(unit_path: &str) -> (r: String)
    ensures
        r@ == dir_of(unit_path@),
{
    let v = text::chars_of(unit_path);
    match text::rfind(&v, '/') {
        Some(i) => {
            let dir = text::slice_text(&v, 0, i);
            assert(dir@ =~= unit_path@.take(i as int));
            dir
        },
        None => ".".to_owned(),
    }
}

/// The directory reached from `stack` by one step: a step up leaves the innermost directory, and an
/// empty step or a dot stays. There is none above the root.
pub open spec fn rel_step(stack: Seq<Seq<char>>, part: Seq<char>) -> Option<Seq<Seq<char>>> {
    if part.len() == 0 || part == "."@ {
        Some(stack)
    } else if part == ".."@ {
        if stack.len() > 0 {
            Some(stack.drop_last())
        } else {
            None
        }
    } else {
        Some(stack.push(part))
    }
}

/// The directory reached from `stack` by the first `n` steps, where none of them leaves the root.
pub open spec fn rel_steps(stack: Seq<Seq<char>>, parts: Seq<Seq<char>>, n: nat) -> Option<Seq<Seq<char>>>
    decreases n,
{
    if n == 0 {
        Some(stack)
    } else {
        match rel_steps(stack, parts, (n - 1) as nat) {
            Some(s) => rel_step(s, parts[n - 1]),
            None => None,
        }
    }
}

/// The directory that `config_path` names from `base`: none where the path climbs above the root.
pub open spec fn rel_dir(base: Seq<char>, config_path: Seq<char>) -> Option<Seq<char>> {
    let start = if base == "."@ || base.len() == 0 {
        Seq::empty()
    } else {
        text::split_on(base, '/')
    };
    let parts = text::split_on(config_path, '/');
    match rel_steps(start, parts, parts.len()) {
        Some(end) => if end.len() == 0 {
            Some("."@)
        } else {
            Some(text::joined(end, "/"@))
        },
        None => None,
    }
}

proof fn lemma_outside_stays(stack: Seq<Seq<char>>, parts: Seq<Seq<char>>, m: nat, n: nat)
    requires
        m <= n,
        rel_steps(stack, parts, m) is None,
    ensures
        rel_steps(stack, parts, n) is None,
    decreases n,
{
    if m < n {
        lemma_outside_stays(stack, parts, m, (n - 1) as nat);
    }
}

/// The directory that a relative path names from a base directory: none where the path climbs above
/// the root.
pub fn resolve_rel_dir(base_dir: &str, config_path: &str) -> (r: Option<String>)
    ensures
        text::opt_view(r) == rel_dir(base_dir@, config_path@),
{
    let mut stack: Vec<String> = if text::same(base_dir, ".") || base_dir.unicode_len() == 0 {
        Vec::new()
    } else {
        text::split_char(base_dir, '/')
    };
    let ghost start = if base_dir@ == "."@ || base_dir@.len() == 0 {
        Seq::<Seq<char>>::empty()
    } else {
        text::split_on(base_dir@, '/')
    };
    assert(text::views(stack@) =~= start);
    let parts = text::split_char(config_path, '/');
    let ghost pv = text::split_on(config_path@, '/');
    assert(pv.len() == parts@.len());
    let mut i: usize = 0;
    while i < parts.len()
        invariant
            i <= parts@.len(),
            text::views(parts@) == pv,
            pv == text::split_on(config_path@, '/'),
            start == (if base_dir@ == "."@ || base_dir@.len() == 0 {
                Seq::<Seq<char>>::empty()
            } else {
                text::split_on(base_dir@, '/')
            }),
            pv.len() == parts@.len(),
            rel_steps(start, pv, i as nat) == Some(text::views(stack@)),
        decreases parts@.len() - i,
    {
        let part = parts[i].as_str();
        assert(pv[i as int] == part@);
        let ghost before = text::views(stack@);
        assert(before.len() == stack@.len());
        if part.unicode_len() == 0 || text::same(part, ".") {
        } else if text::same(part, "..") {
            if stack.len() == 0 {
                proof {
                    lemma_outside_stays(start, pv, (i + 1) as nat, pv.len());
                }
                return None;
            }
            stack.pop();
            assert(text::views(stack@) =~= before.drop_last());
        } else {
            stack.push(parts[i].clone());
            assert(text::views(stack@) =~= before.push(part@));
        }
        i = i + 1;
    }
    assert(text::views(stack@).len() == stack@.len());
    if stack.len() == 0 {
        Some(".".to_owned())
    } else {
        Some(text::join(&stack, "/"))
    }
}

/// The identifier of a unit.
pub open spec fn unit_id(repo: Seq<char>, path: Seq<char>) -> Seq<char> {
    model::uid_text("infra"@, repo, path, dir_of(path), ""@)
}

/// The identifier of a unit.
pub fn terragrunt_uid(repo_name: &str, unit_path: &str) -> (r: Uid)
    ensures
        r@ == unit_id(repo_name@, unit_path@),
{
    let dir = unit_dir(unit_path);
    Uid::new("infra", repo_name, unit_path, dir.as_str(), "")
}

/// The node of a unit.
pub open spec fn unit_node(repo: Seq<char>, path: Seq<char>) -> NodeView {
    model::fact_node(
        unit_id(repo, path),
        NodeKind::CloudResource,
        dir_of(path),
        dir_of(path),
        path,
        model::no_span(),
    )
}

/// The graph with the nodes of the first `n` units.
pub open spec fn with_units(g: GraphView, repo: Seq<char>, units: Seq<TerragruntUnit>, n: nat) -> GraphView
    decreases n,
{
    if n == 0 {
        g
    } else {
        with_units(g, repo, units, (n - 1) as nat).with_node(unit_node(repo, units[n - 1].path@))
    }
}

/// The path of the last of the first `n` units in this directory.
pub open spec fn unit_in(units: Seq<TerragruntUnit>, dir: Seq<char>, n: nat) -> Option<Seq<char>>
    decreases n,
{
    if n == 0 {
        None
    } else if dir_of(units[n - 1].path@) == dir {
        Some(units[n - 1].path@)
    } else {
        unit_in(units, dir, (n - 1) as nat)
    }
}

fn find_unit(units: &Vec<TerragruntUnit>, dir: &str) -> (r: Option<usize>)
    ensures
        match r {
            Some(i) => i < units@.len() && unit_in(units@, dir@, units@.len()) == Some(units@[i as int].path@),
            None => unit_in(units@, dir@, units@.len()) is None,
        },
{
    let mut n: usize = units.len();
    while n > 0
        invariant
            n <= units@.len(),
            unit_in(units@, dir@, units@.len()) == unit_in(units@, dir@, n as nat),
        decreases n,
    {
        let d = unit_dir(units[n - 1].path.as_str());
        if text::same(d.as_str(), dir) {
            return Some(n - 1);
        }
        n = n - 1;
    }
    None
}

/// The path of the unit that a dependency names: none where its path climbs above the root, names
/// the directory of no unit, or leads back to the unit itself.
pub open spec fn dep_target(units: Seq<TerragruntUnit>, unit: TerragruntUnit, dep: TerragruntDependency) -> Option<
    Seq<char>,
> {
    match rel_dir(dir_of(unit.path@), dep.config_path@) {
        Some(dir) => match unit_in(units, dir, units.len()) {
            Some(path) => if path == unit.path@ {
                None
            } else {
                Some(path)
            },
            None => None,
        },
        None => None,
    }
}

fn find_dep(units: &Vec<TerragruntUnit>, unit: &TerragruntUnit, from: &str, dep: &TerragruntDependency) -> (r: Option<
    usize,
>)
    requires
        from@ == dir_of(unit.path@),
    ensures
        match r {
            Some(i) => i < units@.len() && dep_target(units@, *unit, *dep) == Some(units@[i as int].path@),
            None => dep_target(units@, *unit, *dep) is None,
        },
{
    match resolve_rel_dir(from, dep.config_path.as_str()) {
        Some(dir) => match find_unit(units, dir.as_str()) {
            Some(i) => if text::same(units[i].path.as_str(), unit.path.as_str()) {
                None
            } else {
                Some(i)
            },
            None => None,
        },
        None => None,
    }
}

/// The edge of a dependency.
pub open spec fn dep_edge(repo: Seq<char>, from: Seq<char>, to: Seq<char>) -> EdgeView {
    model::edge_of(unit_id(repo, from), unit_id(repo, to), EdgeKind::Routes, Provenance::Extracted, CONF_TG_DEP)
}

/// The graph and the counts with the first `n` dependencies of a unit. An edge that is among the
/// first `known` is not added again.
pub open spec fn with_deps(
    s: (GraphView, DepCounts),
    known: nat,
    repo: Seq<char>,
    units: Seq<TerragruntUnit>,
    unit: TerragruntUnit,
    n: nat,
) -> (GraphView, DepCounts)
    decreases n,
{
    if n == 0 {
        s
    } else {
        let t = with_deps(s, known, repo, units, unit, (n - 1) as nat);
        match dep_target(units, unit, unit.dependencies@[n - 1]) {
            Some(path) => (
                t.0.with_new_edge(known, dep_edge(repo, unit.path@, path)),
                DepCounts { total: t.1.total + 1, linked: t.1.linked + 1, ..t.1 },
            ),
            None => (t.0, DepCounts { total: t.1.total + 1, unresolved: t.1.unresolved + 1, ..t.1 }),
        }
    }
}

/// The graph and the counts with the dependencies of the first `n` units.
pub open spec fn with_all_deps(
    s: (GraphView, DepCounts),
    known: nat,
    repo: Seq<char>,
    units: Seq<TerragruntUnit>,
    n: nat,
) -> (GraphView, DepCounts)
    decreases n,
{
    if n == 0 {
        s
    } else {
        let u = units[n - 1];
        with_deps(with_all_deps(s, known, repo, units, (n - 1) as nat), known, repo, units, u, u.dependencies@.len())
    }
}

/// The Terragrunt plane on top of `g`: a node for each unit, and an edge for each dependency that
/// names another. An edge that `g` has is not added again.
pub open spec fn terragrunt_plane(g: GraphView, repo: Seq<char>, units: Seq<TerragruntUnit>) -> (GraphView, DepCounts) {
    with_all_deps((with_units(g, repo, units, units.len()), DepCounts::zero()), g.edges.len(), repo, units, units.len())
}

/// Adds the Terragrunt units of a repository and reports how they linked up.
pub fn build_terragrunt_plane(g: &mut Graph, repo_name: &str, units: &Vec<TerragruntUnit>) -> (r: TerragruntCoverage)
    ensures
        final(g)@ == terragrunt_plane(old(g)@, repo_name@, units@).0,
        r.counts(terragrunt_plane(old(g)@, repo_name@, units@).1),
        r.units_detected == units@.len(),
{
    let mut cov = TerragruntCoverage::default();
    cov.units_detected = units.len();
    let known: usize = g.edges.len();
    let ghost before = g@;
    let mut i: usize = 0;
    while i < units.len()
        invariant
            i <= units@.len(),
            g@ == with_units(before, repo_name@, units@, i as nat),
        decreases units@.len() - i,
    {
        let path = units[i].path.as_str();
        let dir = unit_dir(path);
        g.add_node(
            model::extracted_node(
                terragrunt_uid(repo_name, path),
                NodeKind::CloudResource,
                dir.as_str(),
                dir.as_str(),
                path,
                Span::default(),
            ),
        );
        i = i + 1;
    }
    let ghost s0 = (g@, DepCounts::zero());
    let mut k: usize = 0;
    while k < units.len()
        invariant
            k <= units@.len(),
            cov.units_detected == units@.len(),
            g@ == with_all_deps(s0, known as nat, repo_name@, units@, k as nat).0,
            cov.counts(with_all_deps(s0, known as nat, repo_name@, units@, k as nat).1),
        decreases units@.len() - k,
    {
        let unit = &units[k];
        let from = unit_dir(unit.path.as_str());
        let src = terragrunt_uid(repo_name, unit.path.as_str());
        let ghost base = with_all_deps(s0, known as nat, repo_name@, units@, k as nat);
        let mut j: usize = 0;
        while j < unit.dependencies.len()
            invariant
                j <= unit.dependencies@.len(),
                cov.units_detected == units@.len(),
                from@ == dir_of(unit.path@),
                src@ == unit_id(repo_name@, unit.path@),
                g@ == with_deps(base, known as nat, repo_name@, units@, *unit, j as nat).0,
                cov.counts(with_deps(base, known as nat, repo_name@, units@, *unit, j as nat).1),
            decreases unit.dependencies@.len() - j,
        {
            cov.deps_total = model::bump(cov.deps_total);
            match find_dep(units, unit, from.as_str(), &unit.dependencies[j]) {
                Some(t) => {
                    let dst = terragrunt_uid(repo_name, units[t].path.as_str());
                    g.add_new_edge(known, Edge::make(&src, &dst, EdgeKind::Routes, Provenance::Extracted, CONF_TG_DEP));
                    cov.deps_linked = model::bump(cov.deps_linked);
                },
                None => {
                    cov.deps_unresolved = model::bump(cov.deps_unresolved);
                },
            }
            j = j + 1;
        }
        k = k + 1;
    }
    cov
}

// ----------------------------------------------------------------------------------------------
// Laws
// ----------------------------------------------------------------------------------------------

/// Whether an edge leads to a node of `h`, or from a function to the module of an indexed file.
pub open spec fn lands(h: GraphView, e: EdgeView, repo: Seq<char>, files: Seq<FileEntry>) -> bool {
    h.has(e.dst) || (e.kind == EdgeKind::Runs && exists|p: Seq<char>|
        #[trigger] is_indexed(files, p) && e.dst == handler_module(repo, p))
}

/// `h` is `g` with nodes added, and with edges that land; it is sound where `g` is.
pub open spec fn infra_grows(g: GraphView, h: GraphView, repo: Seq<char>, files: Seq<FileEntry>) -> bool {
    &&& model::keeps(g, h)
    &&& forall|i: int| g.edges.len() <= i < h.edges.len() ==> lands(h, #[trigger] h.edges[i], repo, files)
}

/// Whether the first `n` resources of a template are nodes of `g`, but for the policies.
pub open spec fn shows_resources(g: GraphView, repo: Seq<char>, t: InfraTemplate, n: nat) -> bool {
    forall|i: int|
        0 <= i < n && (#[trigger] t.resources@[i]).kind != InfraKind::IamPolicy ==> g.has(
            infra_id(repo, t.path@, t.resources@[i].logical_id@),
        )
}

/// Whether the resources of the first `n` templates are nodes of `g`, but for the policies.
pub open spec fn shows_templates(g: GraphView, repo: Seq<char>, ts: Seq<InfraTemplate>, n: nat) -> bool {
    forall|i: int| 0 <= i < n ==> shows_resources(g, repo, #[trigger] ts[i], ts[i].resources@.len())
}

/// Whether the fields are nodes of `g`.
pub open spec fn shows_fields(g: GraphView, fields: Seq<(Seq<char>, Seq<char>)>) -> bool {
    forall|i: int| 0 <= i < fields.len() ==> g.has((#[trigger] fields[i]).1)
}

proof fn lemma_resources_kept(g: GraphView, h: GraphView, repo: Seq<char>, t: InfraTemplate, n: nat)
    requires
        model::extends(g, h),
        n <= t.resources@.len(),
        shows_resources(g, repo, t, n),
    ensures
        shows_resources(h, repo, t, n),
{
    assert forall|i: int| 0 <= i < n && (#[trigger] t.resources@[i]).kind != InfraKind::IamPolicy implies h.has(
        infra_id(repo, t.path@, t.resources@[i].logical_id@),
    ) by {
        assert(g.has(infra_id(repo, t.path@, t.resources@[i].logical_id@)));
    }
}

proof fn lemma_templates_kept(g: GraphView, h: GraphView, repo: Seq<char>, ts: Seq<InfraTemplate>, n: nat)
    requires
        model::extends(g, h),
        n <= ts.len(),
        shows_templates(g, repo, ts, n),
    ensures
        shows_templates(h, repo, ts, n),
{
    assert forall|i: int| 0 <= i < n implies shows_resources(
        h,
        repo,
        #[trigger] ts[i],
        ts[i].resources@.len(),
    ) by {
        lemma_resources_kept(g, h, repo, ts[i], ts[i].resources@.len());
    }
}

proof fn lemma_fields_kept(g: GraphView, h: GraphView, fields: Seq<(Seq<char>, Seq<char>)>)
    requires
        model::extends(g, h),
        shows_fields(g, fields),
    ensures
        shows_fields(h, fields),
{
    assert forall|i: int| 0 <= i < fields.len() implies h.has((#[trigger] fields[i]).1) by {
        assert(g.has(fields[i].1));
    }
}

proof fn lemma_infra_trans(f: GraphView, g: GraphView, h: GraphView, repo: Seq<char>, files: Seq<FileEntry>)
    requires
        infra_grows(f, g, repo, files),
        infra_grows(g, h, repo, files),
    ensures
        infra_grows(f, h, repo, files),
{
    model::lemma_keeps_trans(f, g, h);
    assert forall|i: int| f.edges.len() <= i < h.edges.len() implies lands(h, #[trigger] h.edges[i], repo, files) by {
        if i < g.edges.len() {
            assert(h.edges[i] == g.edges[i]);
            assert(lands(g, g.edges[i], repo, files));
        }
    }
}

proof fn lemma_infra_of_grows(g: GraphView, h: GraphView, repo: Seq<char>, files: Seq<FileEntry>)
    requires
        model::grows(g, h),
    ensures
        infra_grows(g, h, repo, files),
{
    assert forall|i: int| g.edges.len() <= i < h.edges.len() implies lands(h, #[trigger] h.edges[i], repo, files) by {
        assert(h.has(h.edges[i].dst));
    }
}

proof fn lemma_nodes_grow(s: InfraState, repo: Seq<char>, t: InfraTemplate, n: nat)
    requires
        n <= t.resources@.len(),
        s.counts.balanced(),
    ensures
        model::grows(s.graph, with_nodes(s, repo, t, n).graph),
        shows_resources(with_nodes(s, repo, t, n).graph, repo, t, n),
        with_nodes(s, repo, t, n).counts.balanced(),
        with_nodes(s, repo, t, n).graph.edges == s.graph.edges,
    decreases n,
{
    if n > 0 {
        lemma_nodes_grow(s, repo, t, (n - 1) as nat);
        let u = with_nodes(s, repo, t, (n - 1) as nat);
        let res = t.resources@[n - 1];
        if res.kind != InfraKind::IamPolicy {
            let node = resource_node(repo, t.path@, res);
            model::lemma_grows_node(s.graph, u.graph, node);
            lemma_resources_kept(u.graph, u.graph.with_node(node), repo, t, (n - 1) as nat);
        }
    }
}

proof fn lemma_all_nodes_grow(s: InfraState, repo: Seq<char>, ts: Seq<InfraTemplate>, n: nat)
    requires
        n <= ts.len(),
        s.counts.balanced(),
    ensures
        model::grows(s.graph, with_all_nodes(s, repo, ts, n).graph),
        shows_templates(with_all_nodes(s, repo, ts, n).graph, repo, ts, n),
        with_all_nodes(s, repo, ts, n).counts.balanced(),
        with_all_nodes(s, repo, ts, n).graph.edges == s.graph.edges,
    decreases n,
{
    if n > 0 {
        lemma_all_nodes_grow(s, repo, ts, (n - 1) as nat);
        let u = with_all_nodes(s, repo, ts, (n - 1) as nat);
        let t = ts[n - 1];
        lemma_nodes_grow(u, repo, t, t.resources@.len());
        let e = with_nodes(u, repo, t, t.resources@.len());
        model::lemma_grows_trans(s.graph, u.graph, e.graph);
        lemma_templates_kept(u.graph, e.graph, repo, ts, (n - 1) as nat);
    }
}

proof fn lemma_ref_edges_grow(
    g: GraphView,
    known: nat,
    node: Seq<char>,
    repo: Seq<char>,
    template: Seq<char>,
    targets: Seq<(Seq<char>, bool)>,
    kind: EdgeKind,
    reversed: bool,
    n: nat,
)
    requires
        g.has(node),
    ensures
        model::grows(g, with_ref_edges(g, known, node, repo, template, targets, kind, reversed, n)),
    decreases n,
{
    if n > 0 {
        lemma_ref_edges_grow(g, known, node, repo, template, targets, kind, reversed, (n - 1) as nat);
        let h = with_ref_edges(g, known, node, repo, template, targets, kind, reversed, (n - 1) as nat);
        let other = infra_id(repo, template, targets[n - 1].0);
        let grade = ref_grade(targets[n - 1].1);
        if h.has(other) {
            if reversed {
                model::lemma_grows_new_edge(g, h, known, model::edge_of(other, node, kind, grade.0, grade.1));
            } else {
                model::lemma_grows_new_edge(g, h, known, model::edge_of(node, other, kind, grade.0, grade.1));
            }
        }
    }
}

proof fn lemma_ref_grows(
    g: GraphView,
    known: nat,
    node: Seq<char>,
    repo: Seq<char>,
    template: Seq<char>,
    r: Option<RefValue>,
    kind: EdgeKind,
    reversed: bool,
)
    requires
        g.has(node),
    ensures
        model::grows(g, with_ref(g, known, node, repo, template, r, kind, reversed)),
        with_ref(g, known, node, repo, template, r, kind, reversed).has(node),
{
    let targets = ref_targets(r);
    lemma_ref_edges_grow(g, known, node, repo, template, targets, kind, reversed, targets.len());
}

proof fn lemma_roles_grow(
    g: GraphView,
    known: nat,
    node: Seq<char>,
    repo: Seq<char>,
    template: Seq<char>,
    refs: Seq<RefValue>,
    n: nat,
)
    requires
        g.has(node),
    ensures
        model::grows(g, with_roles(g, known, node, repo, template, refs, n)),
        with_roles(g, known, node, repo, template, refs, n).has(node),
    decreases n,
{
    if n > 0 {
        lemma_roles_grow(g, known, node, repo, template, refs, (n - 1) as nat);
        let h = with_roles(g, known, node, repo, template, refs, (n - 1) as nat);
        lemma_ref_grows(h, known, node, repo, template, Some(refs[n - 1]), EdgeKind::Assumes, false);
        model::lemma_grows_trans(
            g,
            h,
            with_ref(h, known, node, repo, template, Some(refs[n - 1]), EdgeKind::Assumes, false),
        );
    }
}

proof fn lemma_grant_grows(g: GraphView, repo: Seq<char>, role: Seq<char>, action: Seq<char>)
    ensures
        model::grows(g, with_grant(g, repo, role, action)),
        has_edge(with_grant(g, repo, role, action), role, action_id(repo, action), EdgeKind::Grants),
{
    let a = action_id(repo, action);
    if !has_edge(g, role, a, EdgeKind::Grants) {
        let node = model::fact_node(a, NodeKind::CloudAction, action, action, ""@, model::no_span());
        model::lemma_grows_node(g, g, node);
        let h = g.with_node(node);
        let e = model::fact_edge(role, a, EdgeKind::Grants);
        model::lemma_grows_edge(g, h, e);
        let k = h.with_edge(e);
        assert(k.edges[k.edges.len() - 1] == e);
    }
}

proof fn lemma_actions_grow(g: GraphView, repo: Seq<char>, role: Seq<char>, actions: Seq<String>, n: nat)
    ensures
        model::grows(g, with_actions(g, repo, role, actions, n)),
    decreases n,
{
    if n > 0 {
        lemma_actions_grow(g, repo, role, actions, (n - 1) as nat);
        let h = with_actions(g, repo, role, actions, (n - 1) as nat);
        lemma_grant_grows(h, repo, role, actions[n - 1]@);
        model::lemma_grows_trans(g, h, with_grant(h, repo, role, actions[n - 1]@));
    }
}

proof fn lemma_opaque_grow(g: GraphView, repo: Seq<char>, role: Seq<char>, reasons: Seq<String>, n: nat)
    ensures
        model::grows(g, with_opaque(g, repo, role, reasons, n)),
    decreases n,
{
    if n > 0 {
        lemma_opaque_grow(g, repo, role, reasons, (n - 1) as nat);
        let h = with_opaque(g, repo, role, reasons, (n - 1) as nat);
        let action = opaque_action(reasons[n - 1]@);
        lemma_grant_grows(h, repo, role, action);
        model::lemma_grows_trans(g, h, with_grant(h, repo, role, action));
    }
}

proof fn lemma_grants_grow(g: GraphView, repo: Seq<char>, role: Seq<char>, res: InfraResource)
    ensures
        model::grows(g, with_grants(g, repo, role, res)),
{
    lemma_actions_grow(g, repo, role, res.granted_actions@, res.granted_actions@.len());
    let listed = with_actions(g, repo, role, res.granted_actions@, res.granted_actions@.len());
    lemma_opaque_grow(listed, repo, role, res.grants_opaque@, res.grants_opaque@.len());
    model::lemma_grows_trans(g, listed, with_grants(g, repo, role, res));
}

proof fn lemma_policy_targets_grow(
    s: (GraphView, bool),
    repo: Seq<char>,
    template: Seq<char>,
    res: InfraResource,
    targets: Seq<(Seq<char>, bool)>,
    n: nat,
)
    ensures
        model::grows(s.0, with_policy_targets(s, repo, template, res, targets, n).0),
    decreases n,
{
    if n > 0 {
        lemma_policy_targets_grow(s, repo, template, res, targets, (n - 1) as nat);
        let t = with_policy_targets(s, repo, template, res, targets, (n - 1) as nat);
        let role = infra_id(repo, template, targets[n - 1].0);
        if t.0.has(role) {
            lemma_grants_grow(t.0, repo, role, res);
            model::lemma_grows_trans(s.0, t.0, with_grants(t.0, repo, role, res));
        }
    }
}

proof fn lemma_policy_grows(s: (GraphView, bool), repo: Seq<char>, template: Seq<char>, res: InfraResource, n: nat)
    ensures
        model::grows(s.0, with_policy(s, repo, template, res, n).0),
    decreases n,
{
    if n > 0 {
        lemma_policy_grows(s, repo, template, res, (n - 1) as nat);
        let t = with_policy(s, repo, template, res, (n - 1) as nat);
        let targets = targets_of(res.role_refs@[n - 1]);
        lemma_policy_targets_grow(t, repo, template, res, targets, targets.len());
        model::lemma_grows_trans(
            s.0,
            t.0,
            with_policy_targets(t, repo, template, res, targets, targets.len()).0,
        );
    }
}

proof fn lemma_last_indexed(files: Seq<FileEntry>, paths: Seq<Seq<char>>, n: nat)
    requires
        indexed_count(files, paths, n) > 0,
    ensures
        is_indexed(files, last_indexed(files, paths, n)),
    decreases n,
{
    if n > 0 && !is_indexed(files, paths[n - 1]) {
        lemma_last_indexed(files, paths, (n - 1) as nat);
    }
}

proof fn lemma_runs_grow(
    s: InfraState,
    known: nat,
    repo: Seq<char>,
    template: Seq<char>,
    res: InfraResource,
    files: Seq<FileEntry>,
)
    requires
        s.counts.balanced(),
    ensures
        infra_grows(s.graph, with_runs(s, known, repo, template, res, files).graph, repo, files),
        with_runs(s, known, repo, template, res, files).counts.balanced(),
{
    match res.handler {
        None => {},
        Some(handler) => {
            let paths = handler_files(template, res.code_uri, handler@);
            if indexed_count(files, paths, paths.len()) == 1 {
                lemma_last_indexed(files, paths, paths.len());
                let p = last_indexed(files, paths, paths.len());
                let e = model::edge_of(
                    infra_id(repo, template, res.logical_id@),
                    handler_module(repo, p),
                    EdgeKind::Runs,
                    Provenance::Extracted,
                    CONF_RUNS,
                );
                model::lemma_keeps_edge(s.graph, s.graph, e);
                let h = s.graph.with_new_edge(known, e);
                assert forall|i: int| s.graph.edges.len() <= i < h.edges.len() implies lands(
                    h,
                    #[trigger] h.edges[i],
                    repo,
                    files,
                ) by {
                    assert(h.edges[i] == e);
                    assert(is_indexed(files, p));
                }
            }
        },
    }
}

proof fn lemma_field_named(g: GraphView, fields: Seq<(Seq<char>, Seq<char>)>, key: Seq<char>, n: nat)
    requires
        n <= fields.len(),
        shows_fields(g, fields),
    ensures
        field_named(fields, key, n) matches Some(u) ==> g.has(u),
    decreases n,
{
    if n > 0 {
        lemma_field_named(g, fields, key, (n - 1) as nat);
        assert(g.has(fields[n - 1].1));
    }
}

proof fn lemma_field_grows(
    s: InfraState,
    known: nat,
    repo: Seq<char>,
    t: InfraTemplate,
    resolver: InfraResource,
    fields: Seq<(Seq<char>, Seq<char>)>,
)
    requires
        s.counts.balanced(),
        shows_fields(s.graph, fields),
    ensures
        model::grows(s.graph, with_field(s, known, repo, t, resolver, fields).graph),
        with_field(s, known, repo, t, resolver, fields).counts.balanced(),
{
    match (resolver.parent_type, resolver.field_name) {
        (Some(ty), Some(field)) => {
            let key = ty@ + "."@ + field@;
            lemma_field_named(s.graph, fields, key, fields.len());
            if root_type(ty@) {
                match field_named(fields, key, fields.len()) {
                    None => {},
                    Some(uid) => {
                        let p = producer_of(s.graph, repo, t, resolver);
                        model::lemma_grows_new_edge(
                            s.graph,
                            s.graph,
                            known,
                            model::edge_of(p.0, uid, EdgeKind::Produces, p.1, p.2),
                        );
                    },
                }
            }
        },
        _ => {},
    }
}

proof fn lemma_resource_grows(
    s: InfraState,
    known: nat,
    repo: Seq<char>,
    t: InfraTemplate,
    res: InfraResource,
    files: Seq<FileEntry>,
    fields: Seq<(Seq<char>, Seq<char>)>,
)
    requires
        s.counts.balanced(),
        shows_fields(s.graph, fields),
        res.kind != InfraKind::IamPolicy ==> s.graph.has(infra_id(repo, t.path@, res.logical_id@)),
    ensures
        infra_grows(s.graph, with_resource(s, known, repo, t, res, files, fields).graph, repo, files),
        with_resource(s, known, repo, t, res, files, fields).counts.balanced(),
{
    let g = s.graph;
    let node = infra_id(repo, t.path@, res.logical_id@);
    let a = InfraState {
        graph: if res.kind == InfraKind::IamPolicy {
            g
        } else {
            with_own_grants(g, known, repo, t.path@, res)
        },
        counts: s.counts,
    };
    if res.kind != InfraKind::IamPolicy {
        lemma_roles_grow(g, known, node, repo, t.path@, res.role_refs@, res.role_refs@.len());
        let roles = with_roles(g, known, node, repo, t.path@, res.role_refs@, res.role_refs@.len());
        lemma_grants_grow(roles, repo, node, res);
        model::lemma_grows_trans(g, roles, a.graph);
    }
    lemma_infra_of_grows(g, a.graph, repo, files);
    lemma_fields_kept(g, a.graph, fields);
    match res.kind {
        InfraKind::LambdaFunction => {
            lemma_runs_grow(a, known, repo, t.path@, res, files);
            lemma_infra_trans(g, a.graph, with_runs(a, known, repo, t.path@, res, files).graph, repo, files);
        },
        InfraKind::AppSyncDataSource => {
            lemma_ref_grows(a.graph, known, node, repo, t.path@, res.lambda_ref, EdgeKind::Routes, false);
            let b = with_ref(a.graph, known, node, repo, t.path@, res.lambda_ref, EdgeKind::Routes, false);
            lemma_ref_grows(b, known, node, repo, t.path@, res.api_ref, EdgeKind::Contains, true);
            let c = with_ref(b, known, node, repo, t.path@, res.api_ref, EdgeKind::Contains, true);
            model::lemma_grows_trans(a.graph, b, c);
            lemma_infra_of_grows(a.graph, c, repo, files);
            lemma_infra_trans(g, a.graph, c, repo, files);
        },
        InfraKind::AppSyncResolver => {
            lemma_ref_grows(a.graph, known, node, repo, t.path@, res.data_source_ref, EdgeKind::Routes, false);
            let b = with_ref(a.graph, known, node, repo, t.path@, res.data_source_ref, EdgeKind::Routes, false);
            lemma_ref_grows(b, known, node, repo, t.path@, res.api_ref, EdgeKind::Contains, true);
            let c = with_ref(b, known, node, repo, t.path@, res.api_ref, EdgeKind::Contains, true);
            model::lemma_grows_trans(a.graph, b, c);
            lemma_fields_kept(a.graph, c, fields);
            let cs = InfraState { graph: c, counts: a.counts };
            lemma_field_grows(cs, known, repo, t, res, fields);
            let d = with_field(cs, known, repo, t, res, fields).graph;
            model::lemma_grows_trans(a.graph, c, d);
            lemma_infra_of_grows(a.graph, d, repo, files);
            lemma_infra_trans(g, a.graph, d, repo, files);
        },
        InfraKind::IamPolicy => {
            lemma_policy_grows((a.graph, false), repo, t.path@, res, res.role_refs@.len());
            let p = with_policy((a.graph, false), repo, t.path@, res, res.role_refs@.len());
            lemma_infra_of_grows(a.graph, p.0, repo, files);
            lemma_infra_trans(g, a.graph, p.0, repo, files);
        },
        InfraKind::IamRole | InfraKind::AppSyncApi | InfraKind::Generic => {},
    }
}

proof fn lemma_resources_grow(
    s: InfraState,
    known: nat,
    repo: Seq<char>,
    t: InfraTemplate,
    files: Seq<FileEntry>,
    fields: Seq<(Seq<char>, Seq<char>)>,
    n: nat,
)
    requires
        n <= t.resources@.len(),
        s.counts.balanced(),
        shows_fields(s.graph, fields),
        shows_resources(s.graph, repo, t, t.resources@.len()),
    ensures
        infra_grows(s.graph, with_resources(s, known, repo, t, files, fields, n).graph, repo, files),
        with_resources(s, known, repo, t, files, fields, n).counts.balanced(),
    decreases n,
{
    if n > 0 {
        lemma_resources_grow(s, known, repo, t, files, fields, (n - 1) as nat);
        let u = with_resources(s, known, repo, t, files, fields, (n - 1) as nat);
        lemma_fields_kept(s.graph, u.graph, fields);
        lemma_resources_kept(s.graph, u.graph, repo, t, t.resources@.len());
        let res = t.resources@[n - 1];
        lemma_resource_grows(u, known, repo, t, res, files, fields);
        lemma_infra_trans(
            s.graph,
            u.graph,
            with_resource(u, known, repo, t, res, files, fields).graph,
            repo,
            files,
        );
    }
}

proof fn lemma_all_resources_grow(
    s: InfraState,
    known: nat,
    repo: Seq<char>,
    ts: Seq<InfraTemplate>,
    files: Seq<FileEntry>,
    fields: Seq<(Seq<char>, Seq<char>)>,
    n: nat,
)
    requires
        n <= ts.len(),
        s.counts.balanced(),
        shows_fields(s.graph, fields),
        shows_templates(s.graph, repo, ts, ts.len()),
    ensures
        infra_grows(s.graph, with_all_resources(s, known, repo, ts, files, fields, n).graph, repo, files),
        with_all_resources(s, known, repo, ts, files, fields, n).counts.balanced(),
    decreases n,
{
    if n > 0 {
        lemma_all_resources_grow(s, known, repo, ts, files, fields, (n - 1) as nat);
        let u = with_all_resources(s, known, repo, ts, files, fields, (n - 1) as nat);
        let t = ts[n - 1];
        lemma_fields_kept(s.graph, u.graph, fields);
        lemma_templates_kept(s.graph, u.graph, repo, ts, ts.len());
        assert(shows_resources(u.graph, repo, ts[n - 1], ts[n - 1].resources@.len()));
        lemma_resources_grow(u, known, repo, t, files, fields, t.resources@.len());
        lemma_infra_trans(
            s.graph,
            u.graph,
            with_resources(u, known, repo, t, files, fields, t.resources@.len()).graph,
            repo,
            files,
        );
    }
}

proof fn lemma_fields_of(g: GraphView, n: nat)
    requires
        n <= g.nodes.len(),
    ensures
        shows_fields(g, fields_of(g.nodes, n)),
    decreases n,
{
    if n > 0 {
        lemma_fields_of(g, (n - 1) as nat);
        let rest = fields_of(g.nodes, (n - 1) as nat);
        let all = fields_of(g.nodes, n);
        assert forall|i: int| 0 <= i < all.len() implies g.has((#[trigger] all[i]).1) by {
            if i < rest.len() {
                assert(all[i] == rest[i]);
            } else {
                assert(g.nodes[n - 1].uid == all[i].1);
            }
        }
    }
}

/// The infrastructure plane only adds, every edge that it adds lies in the band of its provenance,
/// and every edge leads to a resource, an action or a field that is there, or from a function to
/// the module of an indexed file. Every resolver of a root field is counted as linked or as
/// unlinked.
pub proof fn law_infra_plane_sound(g: GraphView, repo: Seq<char>, ts: Seq<InfraTemplate>, files: Seq<FileEntry>)
    ensures
        infra_grows(g, infra_plane(g, repo, ts, files).graph, repo, files),
        shows_templates(infra_plane(g, repo, ts, files).graph, repo, ts, ts.len()),
        infra_plane(g, repo, ts, files).counts.balanced(),
{
    let s = InfraState { graph: g, counts: InfraCounts::zero() };
    lemma_all_nodes_grow(s, repo, ts, ts.len());
    let a = with_all_nodes(s, repo, ts, ts.len());
    let fields = fields_of(g.nodes, g.nodes.len());
    lemma_fields_of(g, g.nodes.len());
    lemma_fields_kept(g, a.graph, fields);
    lemma_all_resources_grow(a, g.edges.len(), repo, ts, files, fields, ts.len());
    let b = with_all_resources(a, g.edges.len(), repo, ts, files, fields, ts.len());
    lemma_infra_of_grows(g, a.graph, repo, files);
    lemma_infra_trans(g, a.graph, b.graph, repo, files);
    lemma_templates_kept(a.graph, b.graph, repo, ts, ts.len());
}

/// Whether a resource is a function with a handler.
pub open spec fn has_handler(res: InfraResource) -> bool {
    res.kind == InfraKind::LambdaFunction && res.handler is Some
}

/// Whether a resource resolves a field of a root type.
pub open spec fn resolves_root(res: InfraResource) -> bool {
    res.kind == InfraKind::AppSyncResolver && res.field_name is Some && match res.parent_type {
        Some(ty) => root_type(ty@),
        None => false,
    }
}

/// How many of the first `n` resources satisfy `p`.
pub open spec fn count_of(resources: Seq<InfraResource>, p: spec_fn(InfraResource) -> bool, n: nat) -> nat
    decreases n,
{
    if n == 0 {
        0
    } else {
        count_of(resources, p, (n - 1) as nat) + if p(resources[n - 1]) { 1nat } else { 0 }
    }
}

/// How many resources of the first `n` templates satisfy `p`.
pub open spec fn count_in(ts: Seq<InfraTemplate>, p: spec_fn(InfraResource) -> bool, n: nat) -> nat
    decreases n,
{
    if n == 0 {
        0
    } else {
        let resources = ts[n - 1].resources@;
        count_in(ts, p, (n - 1) as nat) + count_of(resources, p, resources.len())
    }
}

/// Whether counts tell of so many resources, functions with a handler, and resolvers of a root
/// field.
pub open spec fn tell(c: InfraCounts, resources: nat, handlers: nat, resolvers: nat) -> bool {
    &&& c.resources == resources
    &&& c.runs + c.unresolved == handlers
    &&& c.resolvers == resolvers
    &&& c.balanced()
}

proof fn lemma_nodes_told(s: InfraState, repo: Seq<char>, t: InfraTemplate, n: nat)
    ensures
        with_nodes(s, repo, t, n).counts == (InfraCounts { resources: s.counts.resources + n, ..s.counts }),
    decreases n,
{
    if n > 0 {
        lemma_nodes_told(s, repo, t, (n - 1) as nat);
    }
}

proof fn lemma_count_all(resources: Seq<InfraResource>, n: nat)
    ensures
        count_of(resources, |res: InfraResource| true, n) == n,
    decreases n,
{
    if n > 0 {
        lemma_count_all(resources, (n - 1) as nat);
    }
}

proof fn lemma_all_nodes_told(s: InfraState, repo: Seq<char>, ts: Seq<InfraTemplate>, n: nat)
    ensures
        with_all_nodes(s, repo, ts, n).counts == (InfraCounts {
            resources: s.counts.resources + count_in(ts, |res: InfraResource| true, n),
            ..s.counts
        }),
    decreases n,
{
    if n > 0 {
        lemma_all_nodes_told(s, repo, ts, (n - 1) as nat);
        let t = ts[n - 1];
        lemma_nodes_told(with_all_nodes(s, repo, ts, (n - 1) as nat), repo, t, t.resources@.len());
        lemma_count_all(t.resources@, t.resources@.len());
    }
}

proof fn lemma_resource_told(
    s: InfraState,
    known: nat,
    repo: Seq<char>,
    t: InfraTemplate,
    res: InfraResource,
    files: Seq<FileEntry>,
    fields: Seq<(Seq<char>, Seq<char>)>,
    handlers: nat,
)
    requires
        tell(s.counts, s.counts.resources, handlers, s.counts.resolvers),
    ensures
        tell(
            with_resource(s, known, repo, t, res, files, fields).counts,
            s.counts.resources,
            handlers + if has_handler(res) { 1nat } else { 0 },
            s.counts.resolvers + if resolves_root(res) { 1nat } else { 0 },
        ),
{
}

proof fn lemma_resources_told(
    s: InfraState,
    known: nat,
    repo: Seq<char>,
    t: InfraTemplate,
    files: Seq<FileEntry>,
    fields: Seq<(Seq<char>, Seq<char>)>,
    n: nat,
    handlers: nat,
)
    requires
        tell(s.counts, s.counts.resources, handlers, s.counts.resolvers),
    ensures
        tell(
            with_resources(s, known, repo, t, files, fields, n).counts,
            s.counts.resources,
            handlers + count_of(t.resources@, |res: InfraResource| has_handler(res), n),
            s.counts.resolvers + count_of(t.resources@, |res: InfraResource| resolves_root(res), n),
        ),
    decreases n,
{
    if n > 0 {
        lemma_resources_told(s, known, repo, t, files, fields, (n - 1) as nat, handlers);
        let u = with_resources(s, known, repo, t, files, fields, (n - 1) as nat);
        let h = handlers + count_of(t.resources@, |res: InfraResource| has_handler(res), (n - 1) as nat);
        lemma_resource_told(u, known, repo, t, t.resources@[n - 1], files, fields, h);
    }
}

proof fn lemma_all_resources_told(
    s: InfraState,
    known: nat,
    repo: Seq<char>,
    ts: Seq<InfraTemplate>,
    files: Seq<FileEntry>,
    fields: Seq<(Seq<char>, Seq<char>)>,
    n: nat,
)
    requires
        tell(s.counts, s.counts.resources, 0, 0),
    ensures
        tell(
            with_all_resources(s, known, repo, ts, files, fields, n).counts,
            s.counts.resources,
            count_in(ts, |res: InfraResource| has_handler(res), n),
            count_in(ts, |res: InfraResource| resolves_root(res), n),
        ),
    decreases n,
{
    if n > 0 {
        lemma_all_resources_told(s, known, repo, ts, files, fields, (n - 1) as nat);
        let u = with_all_resources(s, known, repo, ts, files, fields, (n - 1) as nat);
        let t = ts[n - 1];
        let h = count_in(ts, |res: InfraResource| has_handler(res), (n - 1) as nat);
        lemma_resources_told(u, known, repo, t, files, fields, t.resources@.len(), h);
    }
}

/// Nothing escapes the counts: every resource is counted, every function with a handler is counted
/// as linked to what it runs or as unresolved, and every resolver of a root field is counted as
/// linked or as unlinked; no other resource is counted so.
pub proof fn law_infra_counts_complete(g: GraphView, repo: Seq<char>, ts: Seq<InfraTemplate>, files: Seq<FileEntry>)
    ensures
        ({
            let c = infra_plane(g, repo, ts, files).counts;
            &&& c.resources == count_in(ts, |res: InfraResource| true, ts.len())
            &&& c.runs + c.unresolved == count_in(ts, |res: InfraResource| has_handler(res), ts.len())
            &&& c.resolvers == count_in(ts, |res: InfraResource| resolves_root(res), ts.len())
            &&& c.linked + c.unlinked == c.resolvers
        }),
{
    let s = InfraState { graph: g, counts: InfraCounts::zero() };
    lemma_all_nodes_told(s, repo, ts, ts.len());
    let a = with_all_nodes(s, repo, ts, ts.len());
    lemma_all_resources_told(
        a,
        g.edges.len(),
        repo,
        ts,
        files,
        fields_of(g.nodes, g.nodes.len()),
        ts.len(),
    );
}

/// An action is granted to a role once at most: granting it again changes nothing.
pub proof fn law_grants_once(g: GraphView, repo: Seq<char>, role: Seq<char>, action: Seq<char>)
    ensures
        with_grant(with_grant(g, repo, role, action), repo, role, action) == with_grant(g, repo, role, action),
{
    lemma_grant_grows(g, repo, role, action);
}

/// Whether the first `n` units are nodes of `g`.
pub open spec fn shows_units(g: GraphView, repo: Seq<char>, units: Seq<TerragruntUnit>, n: nat) -> bool {
    forall|i: int| 0 <= i < n ==> g.has(unit_id(repo, (#[trigger] units[i]).path@))
}

proof fn lemma_units_kept(g: GraphView, h: GraphView, repo: Seq<char>, units: Seq<TerragruntUnit>, n: nat)
    requires
        model::extends(g, h),
        n <= units.len(),
        shows_units(g, repo, units, n),
    ensures
        shows_units(h, repo, units, n),
{
    assert forall|i: int| 0 <= i < n implies h.has(unit_id(repo, (#[trigger] units[i]).path@)) by {
        assert(g.has(unit_id(repo, units[i].path@)));
    }
}

proof fn lemma_units_grow(g: GraphView, repo: Seq<char>, units: Seq<TerragruntUnit>, n: nat)
    requires
        n <= units.len(),
    ensures
        model::grows(g, with_units(g, repo, units, n)),
        shows_units(with_units(g, repo, units, n), repo, units, n),
    decreases n,
{
    if n > 0 {
        lemma_units_grow(g, repo, units, (n - 1) as nat);
        let h = with_units(g, repo, units, (n - 1) as nat);
        let node = unit_node(repo, units[n - 1].path@);
        model::lemma_grows_node(g, h, node);
        lemma_units_kept(h, h.with_node(node), repo, units, (n - 1) as nat);
    }
}

proof fn lemma_unit_in(g: GraphView, repo: Seq<char>, units: Seq<TerragruntUnit>, dir: Seq<char>, n: nat)
    requires
        n <= units.len(),
        shows_units(g, repo, units, units.len()),
    ensures
        unit_in(units, dir, n) matches Some(p) ==> g.has(unit_id(repo, p)),
    decreases n,
{
    if n > 0 {
        lemma_unit_in(g, repo, units, dir, (n - 1) as nat);
        assert(g.has(unit_id(repo, units[n - 1].path@)));
    }
}

proof fn lemma_deps_grow(
    s: (GraphView, DepCounts),
    known: nat,
    repo: Seq<char>,
    units: Seq<TerragruntUnit>,
    unit: TerragruntUnit,
    n: nat,
)
    requires
        n <= unit.dependencies@.len(),
        shows_units(s.0, repo, units, units.len()),
        s.1.balanced(),
    ensures
        model::grows(s.0, with_deps(s, known, repo, units, unit, n).0),
        with_deps(s, known, repo, units, unit, n).1.balanced(),
    decreases n,
{
    if n > 0 {
        lemma_deps_grow(s, known, repo, units, unit, (n - 1) as nat);
        let t = with_deps(s, known, repo, units, unit, (n - 1) as nat);
        let dep = unit.dependencies@[n - 1];
        match rel_dir(dir_of(unit.path@), dep.config_path@) {
            Some(dir) => lemma_unit_in(s.0, repo, units, dir, units.len()),
            None => {},
        }
        match dep_target(units, unit, dep) {
            Some(path) => model::lemma_grows_new_edge(s.0, t.0, known, dep_edge(repo, unit.path@, path)),
            None => {},
        }
    }
}

proof fn lemma_all_deps_grow(s: (GraphView, DepCounts), known: nat, repo: Seq<char>, units: Seq<TerragruntUnit>, n: nat)
    requires
        n <= units.len(),
        shows_units(s.0, repo, units, units.len()),
        s.1.balanced(),
    ensures
        model::grows(s.0, with_all_deps(s, known, repo, units, n).0),
        with_all_deps(s, known, repo, units, n).1.balanced(),
    decreases n,
{
    if n > 0 {
        lemma_all_deps_grow(s, known, repo, units, (n - 1) as nat);
        let t = with_all_deps(s, known, repo, units, (n - 1) as nat);
        let u = units[n - 1];
        lemma_units_kept(s.0, t.0, repo, units, units.len());
        lemma_deps_grow(t, known, repo, units, u, u.dependencies@.len());
        model::lemma_grows_trans(s.0, t.0, with_deps(t, known, repo, units, u, u.dependencies@.len()).0);
    }
}

/// The Terragrunt units only add, and every dependency gives either one edge, a fact in its band,
/// to a unit that is there, or is counted as unresolved: no edge leads to a unit that is unknown.
pub proof fn law_terragrunt_plane_sound(g: GraphView, repo: Seq<char>, units: Seq<TerragruntUnit>)
    ensures
        model::grows(g, terragrunt_plane(g, repo, units).0),
        shows_units(terragrunt_plane(g, repo, units).0, repo, units, units.len()),
        terragrunt_plane(g, repo, units).1.balanced(),
{
    lemma_units_grow(g, repo, units, units.len());
    let a = with_units(g, repo, units, units.len());
    lemma_all_deps_grow((a, DepCounts::zero()), g.edges.len(), repo, units, units.len());
    let b = terragrunt_plane(g, repo, units).0;
    model::lemma_grows_trans(g, a, b);
    lemma_units_kept(a, b, repo, units, units.len());
}

/// The number of dependencies of the first `n` units.
pub open spec fn dep_count(units: Seq<TerragruntUnit>, n: nat) -> nat
    decreases n,
{
    if n == 0 {
        0
    } else {
        dep_count(units, (n - 1) as nat) + units[n - 1].dependencies@.len()
    }
}

proof fn lemma_deps_told(
    s: (GraphView, DepCounts),
    known: nat,
    repo: Seq<char>,
    units: Seq<TerragruntUnit>,
    unit: TerragruntUnit,
    n: nat,
)
    ensures
        with_deps(s, known, repo, units, unit, n).1.total == s.1.total + n,
    decreases n,
{
    if n > 0 {
        lemma_deps_told(s, known, repo, units, unit, (n - 1) as nat);
    }
}

proof fn lemma_all_deps_told(s: (GraphView, DepCounts), known: nat, repo: Seq<char>, units: Seq<TerragruntUnit>, n: nat)
    ensures
        with_all_deps(s, known, repo, units, n).1.total == s.1.total + dep_count(units, n),
    decreases n,
{
    if n > 0 {
        lemma_all_deps_told(s, known, repo, units, (n - 1) as nat);
        let t = with_all_deps(s, known, repo, units, (n - 1) as nat);
        let u = units[n - 1];
        lemma_deps_told(t, known, repo, units, u, u.dependencies@.len());
    }
}

/// Every dependency of every unit is counted, as linked or as unresolved, and a unit never depends
/// on itself.
pub proof fn law_terragrunt_counts_complete(
    g: GraphView,
    repo: Seq<char>,
    units: Seq<TerragruntUnit>,
    unit: TerragruntUnit,
    dep: TerragruntDependency,
)
    ensures
        terragrunt_plane(g, repo, units).1.total == dep_count(units, units.len()),
        terragrunt_plane(g, repo, units).1.balanced(),
        dep_target(units, unit, dep) != Some(unit.path@),
{
    law_terragrunt_plane_sound(g, repo, units);
    let a = with_units(g, repo, units, units.len());
    lemma_all_deps_told((a, DepCounts::zero()), g.edges.len(), repo, units, units.len());
}

// ----------------------------------------------------------------------------------------------
// Building twice
// ----------------------------------------------------------------------------------------------

/// Whether every edge of `g` is one of `h`.
pub open spec fn holds_edges(g: GraphView, h: GraphView) -> bool {
    forall|i: int| 0 <= i < g.edges.len() ==> h.edges.contains(#[trigger] g.edges[i])
}

/// The nodes of the units.
pub open spec fn unit_nodes(repo: Seq<char>, units: Seq<TerragruntUnit>) -> Seq<NodeView> {
    Seq::new(units.len(), |i: int| unit_node(repo, units[i].path@))
}

proof fn lemma_units_as_nodes(g: GraphView, repo: Seq<char>, units: Seq<TerragruntUnit>, n: nat)
    requires
        n <= units.len(),
    ensures
        with_units(g, repo, units, n) == model::with_nodes(g, unit_nodes(repo, units), n),
    decreases n,
{
    if n > 0 {
        lemma_units_as_nodes(g, repo, units, (n - 1) as nat);
    }
}

proof fn lemma_deps_kept(
    s: (GraphView, DepCounts),
    known: nat,
    repo: Seq<char>,
    units: Seq<TerragruntUnit>,
    unit: TerragruntUnit,
    n: nat,
)
    ensures
        with_deps(s, known, repo, units, unit, n).0.nodes == s.0.nodes,
        model::extends(s.0, with_deps(s, known, repo, units, unit, n).0),
    decreases n,
{
    if n > 0 {
        lemma_deps_kept(s, known, repo, units, unit, (n - 1) as nat);
        let t = with_deps(s, known, repo, units, unit, (n - 1) as nat);
        match dep_target(units, unit, unit.dependencies@[n - 1]) {
            Some(path) => model::law_with_new_edge(t.0, known, dep_edge(repo, unit.path@, path)),
            None => {},
        }
    }
}

proof fn lemma_all_deps_kept(s: (GraphView, DepCounts), known: nat, repo: Seq<char>, units: Seq<TerragruntUnit>, n: nat)
    ensures
        with_all_deps(s, known, repo, units, n).0.nodes == s.0.nodes,
        model::extends(s.0, with_all_deps(s, known, repo, units, n).0),
    decreases n,
{
    if n > 0 {
        lemma_all_deps_kept(s, known, repo, units, (n - 1) as nat);
        let u = units[n - 1];
        let t = with_all_deps(s, known, repo, units, (n - 1) as nat);
        lemma_deps_kept(t, known, repo, units, u, u.dependencies@.len());
    }
}

proof fn lemma_edges_of_earlier(f: GraphView, g: GraphView, h: GraphView)
    requires
        model::extends(f, g),
        holds_edges(g, h),
    ensures
        holds_edges(f, h),
{
    assert forall|i: int| 0 <= i < f.edges.len() implies h.edges.contains(#[trigger] f.edges[i]) by {
        assert(g.edges[i] == f.edges[i]);
        assert(h.edges.contains(g.edges[i]));
    }
}

proof fn lemma_edge_held(g: GraphView, h: GraphView, e: EdgeView)
    requires
        g.edges.contains(e),
        holds_edges(g, h),
    ensures
        h.edges.contains(e),
        h.with_new_edge(h.edges.len(), e) == h,
{
    let i = choose|i: int| 0 <= i < g.edges.len() && g.edges[i] == e;
    assert(h.edges.contains(g.edges[i]));
}

proof fn lemma_deps_again(
    s: (GraphView, DepCounts),
    h: GraphView,
    known: nat,
    repo: Seq<char>,
    units: Seq<TerragruntUnit>,
    unit: TerragruntUnit,
    n: nat,
)
    requires
        holds_edges(with_deps(s, known, repo, units, unit, n).0, h),
    ensures
        with_deps((h, s.1), h.edges.len(), repo, units, unit, n) == (h, with_deps(s, known, repo, units, unit, n).1),
    decreases n,
{
    if n > 0 {
        let t = with_deps(s, known, repo, units, unit, (n - 1) as nat);
        let u = with_deps(s, known, repo, units, unit, n);
        match dep_target(units, unit, unit.dependencies@[n - 1]) {
            Some(path) => {
                let e = dep_edge(repo, unit.path@, path);
                model::law_with_new_edge(t.0, known, e);
                lemma_edge_held(u.0, h, e);
            },
            None => {},
        }
        lemma_edges_of_earlier(t.0, u.0, h);
        lemma_deps_again(s, h, known, repo, units, unit, (n - 1) as nat);
    }
}

proof fn lemma_all_deps_again(
    s: (GraphView, DepCounts),
    h: GraphView,
    known: nat,
    repo: Seq<char>,
    units: Seq<TerragruntUnit>,
    n: nat,
)
    requires
        holds_edges(with_all_deps(s, known, repo, units, n).0, h),
    ensures
        with_all_deps((h, s.1), h.edges.len(), repo, units, n) == (h, with_all_deps(s, known, repo, units, n).1),
    decreases n,
{
    if n > 0 {
        let t = with_all_deps(s, known, repo, units, (n - 1) as nat);
        let u = units[n - 1];
        lemma_deps_kept(t, known, repo, units, u, u.dependencies@.len());
        lemma_deps_again(t, h, known, repo, units, u, u.dependencies@.len());
        lemma_edges_of_earlier(t.0, with_deps(t, known, repo, units, u, u.dependencies@.len()).0, h);
        lemma_all_deps_again(s, h, known, repo, units, (n - 1) as nat);
    }
}

/// Building the Terragrunt plane twice is building it once: the second time changes neither a node
/// nor an edge, and counts the same.
pub proof fn law_terragrunt_plane_idempotent(g: GraphView, repo: Seq<char>, units: Seq<TerragruntUnit>)
    ensures
        terragrunt_plane(terragrunt_plane(g, repo, units).0, repo, units) == terragrunt_plane(g, repo, units),
{
    let nodes = unit_nodes(repo, units);
    let a = with_units(g, repo, units, units.len());
    let h = terragrunt_plane(g, repo, units).0;
    lemma_units_as_nodes(g, repo, units, units.len());
    model::lemma_added_shows(g, nodes, nodes.len());
    lemma_all_deps_kept((a, DepCounts::zero()), g.edges.len(), repo, units, units.len());
    assert(model::shows(h, nodes, nodes.len())) by {
        assert forall|j: int| 0 <= j < nodes.len() implies h.has((#[trigger] nodes[j]).uid) by {
            assert(a.has(nodes[j].uid));
        }
    }
    model::lemma_shown_again(h, nodes);
    lemma_units_as_nodes(h, repo, units, units.len());
    assert(holds_edges(h, h));
    lemma_all_deps_again((a, DepCounts::zero()), h, g.edges.len(), repo, units, units.len());
}

/// The nodes of the first `n` resources of a template.
pub open spec fn resource_nodes(repo: Seq<char>, t: InfraTemplate, n: nat) -> Seq<NodeView>
    decreases n,
{
    if n == 0 {
        Seq::empty()
    } else {
        let rest = resource_nodes(repo, t, (n - 1) as nat);
        if t.resources@[n - 1].kind == InfraKind::IamPolicy {
            rest
        } else {
            rest.push(resource_node(repo, t.path@, t.resources@[n - 1]))
        }
    }
}

/// The nodes of the resources of the first `n` templates.
pub open spec fn template_nodes(repo: Seq<char>, ts: Seq<InfraTemplate>, n: nat) -> Seq<NodeView>
    decreases n,
{
    if n == 0 {
        Seq::empty()
    } else {
        template_nodes(repo, ts, (n - 1) as nat) + resource_nodes(repo, ts[n - 1], ts[n - 1].resources@.len())
    }
}

proof fn lemma_resources_as_nodes(s: InfraState, repo: Seq<char>, t: InfraTemplate, n: nat)
    ensures
        with_nodes(s, repo, t, n).graph == model::with_nodes(
            s.graph,
            resource_nodes(repo, t, n),
            resource_nodes(repo, t, n).len(),
        ),
    decreases n,
{
    if n > 0 {
        lemma_resources_as_nodes(s, repo, t, (n - 1) as nat);
        let rest = resource_nodes(repo, t, (n - 1) as nat);
        let all = resource_nodes(repo, t, n);
        if t.resources@[n - 1].kind != InfraKind::IamPolicy {
            assert(all.take(rest.len() as int) =~= rest.take(rest.len() as int));
            model::lemma_with_nodes_prefix(s.graph, all, rest, rest.len());
        }
    }
}

proof fn lemma_templates_as_nodes(s: InfraState, repo: Seq<char>, ts: Seq<InfraTemplate>, n: nat)
    ensures
        with_all_nodes(s, repo, ts, n).graph == model::with_nodes(
            s.graph,
            template_nodes(repo, ts, n),
            template_nodes(repo, ts, n).len(),
        ),
    decreases n,
{
    if n > 0 {
        lemma_templates_as_nodes(s, repo, ts, (n - 1) as nat);
        let t = ts[n - 1];
        let more = resource_nodes(repo, t, t.resources@.len());
        lemma_resources_as_nodes(with_all_nodes(s, repo, ts, (n - 1) as nat), repo, t, t.resources@.len());
        model::lemma_with_nodes_append(s.graph, template_nodes(repo, ts, (n - 1) as nat), more, more.len());
    }
}

/// Whether an identifier is one of a resource.
pub open spec fn of_infra(uid: Seq<char>) -> bool {
    text::begins(uid, "infra|"@)
}

/// Whether an identifier is one of an action.
pub open spec fn of_iam(uid: Seq<char>) -> bool {
    text::begins(uid, "iam|"@)
}

/// Whether the nodes of a list are those of resources.
pub open spec fn are_resources(nodes: Seq<NodeView>) -> bool {
    forall|j: int|
        0 <= j < nodes.len() ==> of_infra((#[trigger] nodes[j]).uid) && nodes[j].kind != NodeKind::GraphqlField
}

/// Identifiers of resources and of actions never meet.
pub proof fn lemma_prefixes(repo: Seq<char>, a: Seq<char>, b: Seq<char>)
    ensures
        of_infra(infra_id(repo, a, b)),
        of_iam(action_id(repo, b)),
        !of_infra(action_id(repo, b)),
{
    reveal_strlit("infra");
    reveal_strlit("infra|");
    reveal_strlit("iam");
    reveal_strlit("iam|");
    let x = infra_id(repo, a, b);
    assert(x.take(6) =~= "infra|"@);
    let y = action_id(repo, b);
    assert(y.take(4) =~= "iam|"@);
    if of_infra(y) {
        assert(y.take(6)[1] == "infra|"@[1]);
    }
}

proof fn lemma_resource_nodes(repo: Seq<char>, t: InfraTemplate, n: nat)
    requires
        n <= t.resources@.len(),
    ensures
        are_resources(resource_nodes(repo, t, n)),
    decreases n,
{
    if n > 0 {
        lemma_resource_nodes(repo, t, (n - 1) as nat);
        lemma_prefixes(repo, t.path@, t.resources@[n - 1].logical_id@);
    }
}

proof fn lemma_template_nodes(repo: Seq<char>, ts: Seq<InfraTemplate>, n: nat)
    requires
        n <= ts.len(),
    ensures
        are_resources(template_nodes(repo, ts, n)),
    decreases n,
{
    if n > 0 {
        lemma_template_nodes(repo, ts, (n - 1) as nat);
        let rest = template_nodes(repo, ts, (n - 1) as nat);
        let more = resource_nodes(repo, ts[n - 1], ts[n - 1].resources@.len());
        lemma_resource_nodes(repo, ts[n - 1], ts[n - 1].resources@.len());
        assert forall|j: int| 0 <= j < (rest + more).len() implies of_infra((#[trigger] (rest + more)[j]).uid) && (rest
            + more)[j].kind != NodeKind::GraphqlField by {
            if j < rest.len() {
                assert((rest + more)[j] == rest[j]);
            } else {
                assert((rest + more)[j] == more[j - rest.len()]);
            }
        }
    }
}

/// The fields of a graph.
pub open spec fn all_fields(g: GraphView) -> Seq<(Seq<char>, Seq<char>)> {
    fields_of(g.nodes, g.nodes.len())
}

/// Whether no GraphQL field has the identifier of a resource or an action.
pub open spec fn fields_apart(g: GraphView) -> bool {
    forall|i: int|
        0 <= i < g.nodes.len() && (#[trigger] g.nodes[i]).kind == NodeKind::GraphqlField ==> !of_infra(g.nodes[i].uid)
            && !of_iam(g.nodes[i].uid)
}

proof fn lemma_fields_same(a: Seq<NodeView>, b: Seq<NodeView>, n: nat)
    requires
        n <= a.len(),
        n <= b.len(),
        forall|i: int|
            0 <= i < n ==> (#[trigger] a[i] == b[i] || (a[i].kind != NodeKind::GraphqlField && b[i].kind
                != NodeKind::GraphqlField)),
    ensures
        fields_of(a, n) == fields_of(b, n),
    decreases n,
{
    if n > 0 {
        lemma_fields_same(a, b, (n - 1) as nat);
        assert(a[n - 1] == b[n - 1] || (a[n - 1].kind != NodeKind::GraphqlField && b[n - 1].kind
            != NodeKind::GraphqlField));
    }
}

proof fn lemma_fields_with_node(g: GraphView, x: NodeView)
    requires
        fields_apart(g),
        of_infra(x.uid) || of_iam(x.uid),
        x.kind != NodeKind::GraphqlField,
    ensures
        fields_apart(g.with_node(x)),
        all_fields(g.with_node(x)) == all_fields(g),
{
    let h = g.with_node(x);
    assert forall|i: int| 0 <= i < h.nodes.len() && (#[trigger] h.nodes[i]).kind == NodeKind::GraphqlField implies !of_infra(
        h.nodes[i].uid,
    ) && !of_iam(h.nodes[i].uid) by {
        if i < g.nodes.len() {
            assert(h.nodes[i] == g.nodes[i]);
        }
    }
    assert forall|i: int| 0 <= i < g.nodes.len() implies (#[trigger] g.nodes[i] == h.nodes[i] || (g.nodes[i].kind
        != NodeKind::GraphqlField && h.nodes[i].kind != NodeKind::GraphqlField)) by {
        if g.nodes[i].uid == x.uid {
            assert(g.has(x.uid));
        }
    }
    lemma_fields_same(g.nodes, h.nodes, g.nodes.len());
}

proof fn lemma_fields_with_nodes(g: GraphView, nodes: Seq<NodeView>, n: nat)
    requires
        n <= nodes.len(),
        are_resources(nodes),
        fields_apart(g),
    ensures
        fields_apart(model::with_nodes(g, nodes, n)),
        all_fields(model::with_nodes(g, nodes, n)) == all_fields(g),
    decreases n,
{
    if n > 0 {
        lemma_fields_with_nodes(g, nodes, (n - 1) as nat);
        assert(of_infra(nodes[n - 1].uid));
        lemma_fields_with_node(model::with_nodes(g, nodes, (n - 1) as nat), nodes[n - 1]);
    }
}

/// Whether `h` comes after `g` in the wiring of resources: edges and actions were added, no resource
/// came or went, and `nodes` still show.
pub open spec fn wired(g: GraphView, h: GraphView, nodes: Seq<NodeView>) -> bool {
    &&& model::extends(g, h)
    &&& forall|u: Seq<char>| of_infra(u) ==> #[trigger] h.has(u) == g.has(u)
    &&& model::shows(g, nodes, nodes.len()) ==> model::shows(h, nodes, nodes.len())
    &&& fields_apart(g) ==> fields_apart(h) && all_fields(h) == all_fields(g)
}

proof fn lemma_wired_edge(g: GraphView, known: nat, e: EdgeView, nodes: Seq<NodeView>)
    ensures
        wired(g, g.with_new_edge(known, e), nodes),
        g.with_new_edge(known, e).edges.contains(e),
        g.with_new_edge(known, e).nodes == g.nodes,
{
    model::law_with_new_edge(g, known, e);
    let h = g.with_new_edge(known, e);
    assert forall|u: Seq<char>| #[trigger] h.has(u) == g.has(u) by {
        if h.has(u) {
            let i = choose|i: int| 0 <= i < h.nodes.len() && (#[trigger] h.nodes[i]).uid == u;
            assert(g.nodes[i].uid == u);
        }
    }
    if model::shows(g, nodes, nodes.len()) {
        assert forall|j: int| 0 <= j < nodes.len() implies h.has((#[trigger] nodes[j]).uid) by {
            assert(g.has(nodes[j].uid));
        }
    }
}

proof fn lemma_wired_trans(f: GraphView, g: GraphView, h: GraphView, nodes: Seq<NodeView>)
    requires
        wired(f, g, nodes),
        wired(g, h, nodes),
    ensures
        wired(f, h, nodes),
{
    assert forall|u: Seq<char>| of_infra(u) implies #[trigger] h.has(u) == f.has(u) by {
        assert(g.has(u) == f.has(u));
    }
}

proof fn lemma_wired_edge_held(g: GraphView, h: GraphView, e: EdgeView, nodes: Seq<NodeView>)
    requires
        wired(g, h, nodes),
        g.edges.contains(e),
    ensures
        h.edges.contains(e),
        h.with_new_edge(h.edges.len(), e) == h,
{
    let i = choose|i: int| 0 <= i < g.edges.len() && g.edges[i] == e;
    assert(h.edges[i] == e);
}

/// The edge between a node and the target of a reference.
pub open spec fn ref_edge(node: Seq<char>, other: Seq<char>, kind: EdgeKind, reversed: bool, inferred: bool) -> EdgeView {
    let grade = ref_grade(inferred);
    if reversed {
        model::edge_of(other, node, kind, grade.0, grade.1)
    } else {
        model::edge_of(node, other, kind, grade.0, grade.1)
    }
}

proof fn lemma_ref_edges_wired(
    g: GraphView,
    known: nat,
    node: Seq<char>,
    repo: Seq<char>,
    template: Seq<char>,
    targets: Seq<(Seq<char>, bool)>,
    kind: EdgeKind,
    reversed: bool,
    n: nat,
    nodes: Seq<NodeView>,
)
    ensures
        wired(g, with_ref_edges(g, known, node, repo, template, targets, kind, reversed, n), nodes),
    decreases n,
{
    if n > 0 {
        lemma_ref_edges_wired(g, known, node, repo, template, targets, kind, reversed, (n - 1) as nat, nodes);
        let m = with_ref_edges(g, known, node, repo, template, targets, kind, reversed, (n - 1) as nat);
        let other = infra_id(repo, template, targets[n - 1].0);
        let e = ref_edge(node, other, kind, reversed, targets[n - 1].1);
        if m.has(other) {
            lemma_wired_edge(m, known, e, nodes);
            lemma_wired_trans(g, m, m.with_new_edge(known, e), nodes);
        }
    }
}

proof fn lemma_ref_edges_again(
    g: GraphView,
    h: GraphView,
    known: nat,
    node: Seq<char>,
    repo: Seq<char>,
    template: Seq<char>,
    targets: Seq<(Seq<char>, bool)>,
    kind: EdgeKind,
    reversed: bool,
    n: nat,
    nodes: Seq<NodeView>,
)
    requires
        wired(with_ref_edges(g, known, node, repo, template, targets, kind, reversed, n), h, nodes),
    ensures
        with_ref_edges(h, h.edges.len(), node, repo, template, targets, kind, reversed, n) == h,
    decreases n,
{
    if n > 0 {
        let m = with_ref_edges(g, known, node, repo, template, targets, kind, reversed, (n - 1) as nat);
        let k = with_ref_edges(g, known, node, repo, template, targets, kind, reversed, n);
        let other = infra_id(repo, template, targets[n - 1].0);
        let e = ref_edge(node, other, kind, reversed, targets[n - 1].1);
        lemma_prefixes(repo, template, targets[n - 1].0);
        if m.has(other) {
            lemma_wired_edge(m, known, e, nodes);
            assert(k == m.with_new_edge(known, e));
            lemma_wired_trans(m, k, h, nodes);
            lemma_wired_edge_held(k, h, e, nodes);
        } else {
            assert(k == m);
            assert(h.has(other) == k.has(other));
        }
        lemma_ref_edges_again(g, h, known, node, repo, template, targets, kind, reversed, (n - 1) as nat, nodes);
    }
}

proof fn lemma_roles_wired(
    g: GraphView,
    known: nat,
    node: Seq<char>,
    repo: Seq<char>,
    template: Seq<char>,
    refs: Seq<RefValue>,
    n: nat,
    nodes: Seq<NodeView>,
)
    ensures
        wired(g, with_roles(g, known, node, repo, template, refs, n), nodes),
    decreases n,
{
    if n > 0 {
        lemma_roles_wired(g, known, node, repo, template, refs, (n - 1) as nat, nodes);
        let m = with_roles(g, known, node, repo, template, refs, (n - 1) as nat);
        let targets = ref_targets(Some(refs[n - 1]));
        lemma_ref_edges_wired(m, known, node, repo, template, targets, EdgeKind::Assumes, false, targets.len(), nodes);
        lemma_wired_trans(g, m, with_roles(g, known, node, repo, template, refs, n), nodes);
    }
}

proof fn lemma_roles_again(
    g: GraphView,
    h: GraphView,
    known: nat,
    node: Seq<char>,
    repo: Seq<char>,
    template: Seq<char>,
    refs: Seq<RefValue>,
    n: nat,
    nodes: Seq<NodeView>,
)
    requires
        wired(with_roles(g, known, node, repo, template, refs, n), h, nodes),
    ensures
        with_roles(h, h.edges.len(), node, repo, template, refs, n) == h,
    decreases n,
{
    if n > 0 {
        let m = with_roles(g, known, node, repo, template, refs, (n - 1) as nat);
        let targets = ref_targets(Some(refs[n - 1]));
        lemma_ref_edges_wired(m, known, node, repo, template, targets, EdgeKind::Assumes, false, targets.len(), nodes);
        lemma_wired_trans(m, with_roles(g, known, node, repo, template, refs, n), h, nodes);
        lemma_roles_again(g, h, known, node, repo, template, refs, (n - 1) as nat, nodes);
        lemma_ref_edges_again(
            m,
            h,
            known,
            node,
            repo,
            template,
            targets,
            EdgeKind::Assumes,
            false,
            targets.len(),
            nodes,
        );
    }
}

proof fn lemma_grant_wired(g: GraphView, repo: Seq<char>, role: Seq<char>, action: Seq<char>, nodes: Seq<NodeView>)
    requires
        are_resources(nodes),
    ensures
        wired(g, with_grant(g, repo, role, action), nodes),
{
    let a = action_id(repo, action);
    if !has_edge(g, role, a, EdgeKind::Grants) {
        let x = model::fact_node(a, NodeKind::CloudAction, action, action, ""@, model::no_span());
        let m = g.with_node(x);
        let e = model::fact_edge(role, a, EdgeKind::Grants);
        let h = m.with_edge(e);
        lemma_prefixes(repo, ""@, action);
        model::law_with_node(g, x);
        model::law_with_edge(m, e);
        assert(model::extends(g, h));
        if model::shows(g, nodes, nodes.len()) {
            assert forall|j: int| 0 <= j < nodes.len() implies (#[trigger] nodes[j]).uid != x.uid by {
                assert(of_infra(nodes[j].uid));
            }
            model::lemma_shows_node(g, nodes, nodes.len(), x);
            assert forall|j: int| 0 <= j < nodes.len() implies h.has((#[trigger] nodes[j]).uid) by {
                assert(m.has(nodes[j].uid));
            }
        }
        if fields_apart(g) {
            lemma_fields_with_node(g, x);
        }
    }
}

proof fn lemma_grant_again(
    g: GraphView,
    h: GraphView,
    repo: Seq<char>,
    role: Seq<char>,
    action: Seq<char>,
    nodes: Seq<NodeView>,
)
    requires
        wired(with_grant(g, repo, role, action), h, nodes),
    ensures
        with_grant(h, repo, role, action) == h,
{
    lemma_grant_grows(g, repo, role, action);
    let k = with_grant(g, repo, role, action);
    let a = action_id(repo, action);
    assert(k.has(a));
    let i = choose|i: int|
        0 <= i < k.edges.len() && (#[trigger] k.edges[i]).src == role && k.edges[i].dst == a && k.edges[i].kind
            == EdgeKind::Grants;
    assert(h.edges[i] == k.edges[i]);
}

proof fn lemma_actions_wired(
    g: GraphView,
    repo: Seq<char>,
    role: Seq<char>,
    actions: Seq<String>,
    n: nat,
    nodes: Seq<NodeView>,
)
    requires
        are_resources(nodes),
    ensures
        wired(g, with_actions(g, repo, role, actions, n), nodes),
    decreases n,
{
    if n > 0 {
        lemma_actions_wired(g, repo, role, actions, (n - 1) as nat, nodes);
        let m = with_actions(g, repo, role, actions, (n - 1) as nat);
        lemma_grant_wired(m, repo, role, actions[n - 1]@, nodes);
        lemma_wired_trans(g, m, with_actions(g, repo, role, actions, n), nodes);
    }
}

proof fn lemma_actions_again(
    g: GraphView,
    h: GraphView,
    repo: Seq<char>,
    role: Seq<char>,
    actions: Seq<String>,
    n: nat,
    nodes: Seq<NodeView>,
)
    requires
        are_resources(nodes),
        wired(with_actions(g, repo, role, actions, n), h, nodes),
    ensures
        with_actions(h, repo, role, actions, n) == h,
    decreases n,
{
    if n > 0 {
        let m = with_actions(g, repo, role, actions, (n - 1) as nat);
        lemma_grant_wired(m, repo, role, actions[n - 1]@, nodes);
        lemma_wired_trans(m, with_actions(g, repo, role, actions, n), h, nodes);
        lemma_actions_again(g, h, repo, role, actions, (n - 1) as nat, nodes);
        lemma_grant_again(m, h, repo, role, actions[n - 1]@, nodes);
    }
}

proof fn lemma_opaque_wired(
    g: GraphView,
    repo: Seq<char>,
    role: Seq<char>,
    reasons: Seq<String>,
    n: nat,
    nodes: Seq<NodeView>,
)
    requires
        are_resources(nodes),
    ensures
        wired(g, with_opaque(g, repo, role, reasons, n), nodes),
    decreases n,
{
    if n > 0 {
        lemma_opaque_wired(g, repo, role, reasons, (n - 1) as nat, nodes);
        let m = with_opaque(g, repo, role, reasons, (n - 1) as nat);
        lemma_grant_wired(m, repo, role, opaque_action(reasons[n - 1]@), nodes);
        lemma_wired_trans(g, m, with_opaque(g, repo, role, reasons, n), nodes);
    }
}

proof fn lemma_opaque_again(
    g: GraphView,
    h: GraphView,
    repo: Seq<char>,
    role: Seq<char>,
    reasons: Seq<String>,
    n: nat,
    nodes: Seq<NodeView>,
)
    requires
        are_resources(nodes),
        wired(with_opaque(g, repo, role, reasons, n), h, nodes),
    ensures
        with_opaque(h, repo, role, reasons, n) == h,
    decreases n,
{
    if n > 0 {
        let m = with_opaque(g, repo, role, reasons, (n - 1) as nat);
        lemma_grant_wired(m, repo, role, opaque_action(reasons[n - 1]@), nodes);
        lemma_wired_trans(m, with_opaque(g, repo, role, reasons, n), h, nodes);
        lemma_opaque_again(g, h, repo, role, reasons, (n - 1) as nat, nodes);
        lemma_grant_again(m, h, repo, role, opaque_action(reasons[n - 1]@), nodes);
    }
}

proof fn lemma_grants_wired(g: GraphView, repo: Seq<char>, role: Seq<char>, res: InfraResource, nodes: Seq<NodeView>)
    requires
        are_resources(nodes),
    ensures
        wired(g, with_grants(g, repo, role, res), nodes),
{
    let m = with_actions(g, repo, role, res.granted_actions@, res.granted_actions@.len());
    lemma_actions_wired(g, repo, role, res.granted_actions@, res.granted_actions@.len(), nodes);
    lemma_opaque_wired(m, repo, role, res.grants_opaque@, res.grants_opaque@.len(), nodes);
    lemma_wired_trans(g, m, with_grants(g, repo, role, res), nodes);
}

proof fn lemma_grants_again(
    g: GraphView,
    h: GraphView,
    repo: Seq<char>,
    role: Seq<char>,
    res: InfraResource,
    nodes: Seq<NodeView>,
)
    requires
        are_resources(nodes),
        wired(with_grants(g, repo, role, res), h, nodes),
    ensures
        with_grants(h, repo, role, res) == h,
{
    let m = with_actions(g, repo, role, res.granted_actions@, res.granted_actions@.len());
    lemma_opaque_wired(m, repo, role, res.grants_opaque@, res.grants_opaque@.len(), nodes);
    lemma_wired_trans(m, with_grants(g, repo, role, res), h, nodes);
    lemma_actions_again(g, h, repo, role, res.granted_actions@, res.granted_actions@.len(), nodes);
    lemma_opaque_again(m, h, repo, role, res.grants_opaque@, res.grants_opaque@.len(), nodes);
}

proof fn lemma_policy_targets_wired(
    s: (GraphView, bool),
    repo: Seq<char>,
    template: Seq<char>,
    res: InfraResource,
    targets: Seq<(Seq<char>, bool)>,
    n: nat,
    nodes: Seq<NodeView>,
)
    requires
        are_resources(nodes),
    ensures
        wired(s.0, with_policy_targets(s, repo, template, res, targets, n).0, nodes),
    decreases n,
{
    if n > 0 {
        lemma_policy_targets_wired(s, repo, template, res, targets, (n - 1) as nat, nodes);
        let m = with_policy_targets(s, repo, template, res, targets, (n - 1) as nat);
        let role = infra_id(repo, template, targets[n - 1].0);
        if m.0.has(role) {
            lemma_grants_wired(m.0, repo, role, res, nodes);
            lemma_wired_trans(s.0, m.0, with_grants(m.0, repo, role, res), nodes);
        }
    }
}

proof fn lemma_policy_targets_again(
    s: (GraphView, bool),
    h: (GraphView, bool),
    repo: Seq<char>,
    template: Seq<char>,
    res: InfraResource,
    targets: Seq<(Seq<char>, bool)>,
    n: nat,
    nodes: Seq<NodeView>,
)
    requires
        are_resources(nodes),
        wired(with_policy_targets(s, repo, template, res, targets, n).0, h.0, nodes),
    ensures
        with_policy_targets(h, repo, template, res, targets, n).0 == h.0,
    decreases n,
{
    if n > 0 {
        let m = with_policy_targets(s, repo, template, res, targets, (n - 1) as nat);
        let k = with_policy_targets(s, repo, template, res, targets, n);
        let role = infra_id(repo, template, targets[n - 1].0);
        lemma_prefixes(repo, template, targets[n - 1].0);
        if m.0.has(role) {
            lemma_grants_wired(m.0, repo, role, res, nodes);
            lemma_wired_trans(m.0, k.0, h.0, nodes);
            lemma_grants_again(m.0, h.0, repo, role, res, nodes);
        } else {
            assert(h.0.has(role) == k.0.has(role));
        }
        lemma_policy_targets_again(s, h, repo, template, res, targets, (n - 1) as nat, nodes);
    }
}

proof fn lemma_policy_wired(
    s: (GraphView, bool),
    repo: Seq<char>,
    template: Seq<char>,
    res: InfraResource,
    n: nat,
    nodes: Seq<NodeView>,
)
    requires
        are_resources(nodes),
    ensures
        wired(s.0, with_policy(s, repo, template, res, n).0, nodes),
    decreases n,
{
    if n > 0 {
        lemma_policy_wired(s, repo, template, res, (n - 1) as nat, nodes);
        let m = with_policy(s, repo, template, res, (n - 1) as nat);
        let targets = targets_of(res.role_refs@[n - 1]);
        lemma_policy_targets_wired(m, repo, template, res, targets, targets.len(), nodes);
        lemma_wired_trans(s.0, m.0, with_policy(s, repo, template, res, n).0, nodes);
    }
}

proof fn lemma_policy_again(
    s: (GraphView, bool),
    h: (GraphView, bool),
    repo: Seq<char>,
    template: Seq<char>,
    res: InfraResource,
    n: nat,
    nodes: Seq<NodeView>,
)
    requires
        are_resources(nodes),
        wired(with_policy(s, repo, template, res, n).0, h.0, nodes),
    ensures
        with_policy(h, repo, template, res, n).0 == h.0,
    decreases n,
{
    if n > 0 {
        let m = with_policy(s, repo, template, res, (n - 1) as nat);
        let targets = targets_of(res.role_refs@[n - 1]);
        lemma_policy_targets_wired(m, repo, template, res, targets, targets.len(), nodes);
        lemma_wired_trans(m.0, with_policy(s, repo, template, res, n).0, h.0, nodes);
        lemma_policy_again(s, h, repo, template, res, (n - 1) as nat, nodes);
        lemma_policy_targets_again(
            m,
            with_policy(h, repo, template, res, (n - 1) as nat),
            repo,
            template,
            res,
            targets,
            targets.len(),
            nodes,
        );
    }
}

proof fn lemma_runs_wired(
    s: InfraState,
    known: nat,
    repo: Seq<char>,
    template: Seq<char>,
    res: InfraResource,
    files: Seq<FileEntry>,
    nodes: Seq<NodeView>,
)
    ensures
        wired(s.graph, with_runs(s, known, repo, template, res, files).graph, nodes),
{
    match res.handler {
        Some(handler) => {
            let paths = handler_files(template, res.code_uri, handler@);
            let e = model::edge_of(
                infra_id(repo, template, res.logical_id@),
                handler_module(repo, last_indexed(files, paths, paths.len())),
                EdgeKind::Runs,
                Provenance::Extracted,
                CONF_RUNS,
            );
            lemma_wired_edge(s.graph, known, e, nodes);
        },
        None => {},
    }
}

proof fn lemma_runs_again(
    s: InfraState,
    h: InfraState,
    known: nat,
    repo: Seq<char>,
    template: Seq<char>,
    res: InfraResource,
    files: Seq<FileEntry>,
    nodes: Seq<NodeView>,
)
    requires
        wired(with_runs(s, known, repo, template, res, files).graph, h.graph, nodes),
    ensures
        with_runs(h, h.graph.edges.len(), repo, template, res, files).graph == h.graph,
{
    match res.handler {
        Some(handler) => {
            let paths = handler_files(template, res.code_uri, handler@);
            if indexed_count(files, paths, paths.len()) == 1 {
                let e = model::edge_of(
                    infra_id(repo, template, res.logical_id@),
                    handler_module(repo, last_indexed(files, paths, paths.len())),
                    EdgeKind::Runs,
                    Provenance::Extracted,
                    CONF_RUNS,
                );
                lemma_wired_edge(s.graph, known, e, nodes);
                lemma_wired_edge_held(s.graph.with_new_edge(known, e), h.graph, e, nodes);
            }
        },
        None => {},
    }
}

/// Whether no name of a field stands for another field than before: it stands for the same one, or
/// for none.
pub open spec fn fields_settle(before: Seq<(Seq<char>, Seq<char>)>, after: Seq<(Seq<char>, Seq<char>)>) -> bool {
    forall|key: Seq<char>|
        (#[trigger] field_named(after, key, after.len())) matches Some(u) ==> field_named(before, key, before.len())
            == Some(u)
}

proof fn lemma_field_wired(
    s: InfraState,
    known: nat,
    repo: Seq<char>,
    t: InfraTemplate,
    res: InfraResource,
    fields: Seq<(Seq<char>, Seq<char>)>,
    nodes: Seq<NodeView>,
)
    ensures
        wired(s.graph, with_field(s, known, repo, t, res, fields).graph, nodes),
{
    match (res.parent_type, res.field_name) {
        (Some(ty), Some(field)) => {
            match field_named(fields, ty@ + "."@ + field@, fields.len()) {
                Some(uid) => {
                    let p = producer_of(s.graph, repo, t, res);
                    lemma_wired_edge(s.graph, known, model::edge_of(p.0, uid, EdgeKind::Produces, p.1, p.2), nodes);
                },
                None => {},
            }
        },
        _ => {},
    }
}

proof fn lemma_producer_again(
    g: GraphView,
    h: GraphView,
    repo: Seq<char>,
    t: InfraTemplate,
    res: InfraResource,
    nodes: Seq<NodeView>,
)
    requires
        wired(g, h, nodes),
    ensures
        producer_of(h, repo, t, res) == producer_of(g, repo, t, res),
{
    match hop(t.resources@, res.data_source_ref, InfraKind::AppSyncDataSource) {
        Some(ds) => match hop(t.resources@, t.resources@[ds.0].lambda_ref, InfraKind::LambdaFunction) {
            Some(lambda) => {
                let id = t.resources@[lambda.0].logical_id@;
                lemma_prefixes(repo, t.path@, id);
                assert(h.has(infra_id(repo, t.path@, id)) == g.has(infra_id(repo, t.path@, id)));
            },
            None => {},
        },
        None => {},
    }
}

proof fn lemma_field_again(
    s: InfraState,
    h: InfraState,
    known: nat,
    repo: Seq<char>,
    t: InfraTemplate,
    res: InfraResource,
    before: Seq<(Seq<char>, Seq<char>)>,
    after: Seq<(Seq<char>, Seq<char>)>,
    nodes: Seq<NodeView>,
)
    requires
        fields_settle(before, after),
        wired(with_field(s, known, repo, t, res, before).graph, h.graph, nodes),
    ensures
        with_field(h, h.graph.edges.len(), repo, t, res, after).graph == h.graph,
{
    match (res.parent_type, res.field_name) {
        (Some(ty), Some(field)) => {
            let key = ty@ + "."@ + field@;
            if root_type(ty@) {
                match field_named(after, key, after.len()) {
                    Some(uid) => {
                        let p = producer_of(s.graph, repo, t, res);
                        let e = model::edge_of(p.0, uid, EdgeKind::Produces, p.1, p.2);
                        lemma_wired_edge(s.graph, known, e, nodes);
                        lemma_wired_trans(s.graph, s.graph.with_new_edge(known, e), h.graph, nodes);
                        lemma_producer_again(s.graph, h.graph, repo, t, res, nodes);
                        lemma_wired_edge_held(s.graph.with_new_edge(known, e), h.graph, e, nodes);
                    },
                    None => {},
                }
            }
        },
        _ => {},
    }
}

proof fn lemma_own_grants_wired(
    g: GraphView,
    known: nat,
    repo: Seq<char>,
    template: Seq<char>,
    res: InfraResource,
    nodes: Seq<NodeView>,
)
    requires
        are_resources(nodes),
    ensures
        wired(g, with_own_grants(g, known, repo, template, res), nodes),
{
    let node = infra_id(repo, template, res.logical_id@);
    let m = with_roles(g, known, node, repo, template, res.role_refs@, res.role_refs@.len());
    lemma_roles_wired(g, known, node, repo, template, res.role_refs@, res.role_refs@.len(), nodes);
    lemma_grants_wired(m, repo, node, res, nodes);
    lemma_wired_trans(g, m, with_own_grants(g, known, repo, template, res), nodes);
}

proof fn lemma_own_grants_again(
    g: GraphView,
    h: GraphView,
    known: nat,
    repo: Seq<char>,
    template: Seq<char>,
    res: InfraResource,
    nodes: Seq<NodeView>,
)
    requires
        are_resources(nodes),
        wired(with_own_grants(g, known, repo, template, res), h, nodes),
    ensures
        with_own_grants(h, h.edges.len(), repo, template, res) == h,
{
    let node = infra_id(repo, template, res.logical_id@);
    let m = with_roles(g, known, node, repo, template, res.role_refs@, res.role_refs@.len());
    lemma_grants_wired(m, repo, node, res, nodes);
    lemma_wired_trans(m, with_own_grants(g, known, repo, template, res), h, nodes);
    lemma_roles_again(g, h, known, node, repo, template, res.role_refs@, res.role_refs@.len(), nodes);
    lemma_grants_again(m, h, repo, node, res, nodes);
}

/// The state with the roles and the grants of a resource that is no policy.
pub open spec fn with_own(
    s: InfraState,
    known: nat,
    repo: Seq<char>,
    t: InfraTemplate,
    res: InfraResource,
) -> InfraState {
    InfraState {
        graph: if res.kind == InfraKind::IamPolicy {
            s.graph
        } else {
            with_own_grants(s.graph, known, repo, t.path@, res)
        },
        counts: s.counts,
    }
}

/// The graph with the two references of a data source or a resolver.
pub open spec fn with_two_refs(
    g: GraphView,
    known: nat,
    repo: Seq<char>,
    t: InfraTemplate,
    res: InfraResource,
    r: Option<RefValue>,
) -> GraphView {
    let node = infra_id(repo, t.path@, res.logical_id@);
    with_ref(
        with_ref(g, known, node, repo, t.path@, r, EdgeKind::Routes, false),
        known,
        node,
        repo,
        t.path@,
        res.api_ref,
        EdgeKind::Contains,
        true,
    )
}

proof fn lemma_two_refs_wired(
    g: GraphView,
    known: nat,
    repo: Seq<char>,
    t: InfraTemplate,
    res: InfraResource,
    r: Option<RefValue>,
    nodes: Seq<NodeView>,
)
    ensures
        wired(g, with_two_refs(g, known, repo, t, res, r), nodes),
{
    let node = infra_id(repo, t.path@, res.logical_id@);
    let a = ref_targets(r);
    let b = ref_targets(res.api_ref);
    let m = with_ref(g, known, node, repo, t.path@, r, EdgeKind::Routes, false);
    lemma_ref_edges_wired(g, known, node, repo, t.path@, a, EdgeKind::Routes, false, a.len(), nodes);
    lemma_ref_edges_wired(m, known, node, repo, t.path@, b, EdgeKind::Contains, true, b.len(), nodes);
    lemma_wired_trans(g, m, with_two_refs(g, known, repo, t, res, r), nodes);
}

proof fn lemma_two_refs_again(
    g: GraphView,
    h: GraphView,
    known: nat,
    repo: Seq<char>,
    t: InfraTemplate,
    res: InfraResource,
    r: Option<RefValue>,
    nodes: Seq<NodeView>,
)
    requires
        wired(with_two_refs(g, known, repo, t, res, r), h, nodes),
    ensures
        with_two_refs(h, h.edges.len(), repo, t, res, r) == h,
{
    let node = infra_id(repo, t.path@, res.logical_id@);
    let a = ref_targets(r);
    let b = ref_targets(res.api_ref);
    let m = with_ref(g, known, node, repo, t.path@, r, EdgeKind::Routes, false);
    lemma_ref_edges_wired(m, known, node, repo, t.path@, b, EdgeKind::Contains, true, b.len(), nodes);
    lemma_wired_trans(m, with_two_refs(g, known, repo, t, res, r), h, nodes);
    lemma_ref_edges_again(g, h, known, node, repo, t.path@, a, EdgeKind::Routes, false, a.len(), nodes);
    lemma_ref_edges_again(m, h, known, node, repo, t.path@, b, EdgeKind::Contains, true, b.len(), nodes);
}

proof fn lemma_resource_wired(
    s: InfraState,
    known: nat,
    repo: Seq<char>,
    t: InfraTemplate,
    res: InfraResource,
    files: Seq<FileEntry>,
    fields: Seq<(Seq<char>, Seq<char>)>,
    nodes: Seq<NodeView>,
)
    requires
        are_resources(nodes),
    ensures
        wired(s.graph, with_resource(s, known, repo, t, res, files, fields).graph, nodes),
{
    let a = with_own(s, known, repo, t, res);
    let k = with_resource(s, known, repo, t, res, files, fields).graph;
    if res.kind != InfraKind::IamPolicy {
        lemma_own_grants_wired(s.graph, known, repo, t.path@, res, nodes);
    }
    match res.kind {
        InfraKind::LambdaFunction => lemma_runs_wired(a, known, repo, t.path@, res, files, nodes),
        InfraKind::AppSyncDataSource => lemma_two_refs_wired(a.graph, known, repo, t, res, res.lambda_ref, nodes),
        InfraKind::AppSyncResolver => {
            lemma_two_refs_wired(a.graph, known, repo, t, res, res.data_source_ref, nodes);
            let b = InfraState {
                graph: with_two_refs(a.graph, known, repo, t, res, res.data_source_ref),
                counts: a.counts,
            };
            lemma_field_wired(b, known, repo, t, res, fields, nodes);
            lemma_wired_trans(a.graph, b.graph, k, nodes);
        },
        InfraKind::IamPolicy => lemma_policy_wired(
            (a.graph, false),
            repo,
            t.path@,
            res,
            res.role_refs@.len(),
            nodes,
        ),
        InfraKind::IamRole | InfraKind::AppSyncApi | InfraKind::Generic => {},
    }
    if wired(a.graph, k, nodes) && wired(s.graph, a.graph, nodes) {
        lemma_wired_trans(s.graph, a.graph, k, nodes);
    }
}

proof fn lemma_resource_again(
    s: InfraState,
    h: InfraState,
    known: nat,
    repo: Seq<char>,
    t: InfraTemplate,
    res: InfraResource,
    files: Seq<FileEntry>,
    before: Seq<(Seq<char>, Seq<char>)>,
    after: Seq<(Seq<char>, Seq<char>)>,
    nodes: Seq<NodeView>,
)
    requires
        are_resources(nodes),
        fields_settle(before, after),
        wired(with_resource(s, known, repo, t, res, files, before).graph, h.graph, nodes),
    ensures
        with_resource(h, h.graph.edges.len(), repo, t, res, files, after).graph == h.graph,
{
    let a = with_own(s, known, repo, t, res);
    let k = with_resource(s, known, repo, t, res, files, before).graph;
    match res.kind {
        InfraKind::LambdaFunction => {
            lemma_runs_wired(a, known, repo, t.path@, res, files, nodes);
            lemma_wired_trans(a.graph, k, h.graph, nodes);
            lemma_own_grants_again(s.graph, h.graph, known, repo, t.path@, res, nodes);
            lemma_runs_again(a, h, known, repo, t.path@, res, files, nodes);
        },
        InfraKind::AppSyncDataSource => {
            lemma_two_refs_wired(a.graph, known, repo, t, res, res.lambda_ref, nodes);
            lemma_wired_trans(a.graph, k, h.graph, nodes);
            lemma_own_grants_again(s.graph, h.graph, known, repo, t.path@, res, nodes);
            lemma_two_refs_again(a.graph, h.graph, known, repo, t, res, res.lambda_ref, nodes);
        },
        InfraKind::AppSyncResolver => {
            lemma_two_refs_wired(a.graph, known, repo, t, res, res.data_source_ref, nodes);
            let b = InfraState {
                graph: with_two_refs(a.graph, known, repo, t, res, res.data_source_ref),
                counts: a.counts,
            };
            lemma_field_wired(b, known, repo, t, res, before, nodes);
            lemma_wired_trans(b.graph, k, h.graph, nodes);
            lemma_wired_trans(a.graph, b.graph, h.graph, nodes);
            lemma_own_grants_again(s.graph, h.graph, known, repo, t.path@, res, nodes);
            lemma_two_refs_again(a.graph, h.graph, known, repo, t, res, res.data_source_ref, nodes);
            lemma_field_again(b, h, known, repo, t, res, before, after, nodes);
        },
        InfraKind::IamPolicy => lemma_policy_again(
            (a.graph, false),
            (h.graph, false),
            repo,
            t.path@,
            res,
            res.role_refs@.len(),
            nodes,
        ),
        InfraKind::IamRole | InfraKind::AppSyncApi | InfraKind::Generic => {
            lemma_own_grants_again(s.graph, h.graph, known, repo, t.path@, res, nodes);
        },
    }
}

proof fn lemma_resources_wired(
    s: InfraState,
    known: nat,
    repo: Seq<char>,
    t: InfraTemplate,
    files: Seq<FileEntry>,
    fields: Seq<(Seq<char>, Seq<char>)>,
    n: nat,
    nodes: Seq<NodeView>,
)
    requires
        are_resources(nodes),
    ensures
        wired(s.graph, with_resources(s, known, repo, t, files, fields, n).graph, nodes),
    decreases n,
{
    if n > 0 {
        lemma_resources_wired(s, known, repo, t, files, fields, (n - 1) as nat, nodes);
        let m = with_resources(s, known, repo, t, files, fields, (n - 1) as nat);
        lemma_resource_wired(m, known, repo, t, t.resources@[n - 1], files, fields, nodes);
        lemma_wired_trans(s.graph, m.graph, with_resources(s, known, repo, t, files, fields, n).graph, nodes);
    }
}

proof fn lemma_resources_again(
    s: InfraState,
    h: InfraState,
    known: nat,
    repo: Seq<char>,
    t: InfraTemplate,
    files: Seq<FileEntry>,
    before: Seq<(Seq<char>, Seq<char>)>,
    after: Seq<(Seq<char>, Seq<char>)>,
    n: nat,
    nodes: Seq<NodeView>,
)
    requires
        are_resources(nodes),
        fields_settle(before, after),
        wired(with_resources(s, known, repo, t, files, before, n).graph, h.graph, nodes),
    ensures
        with_resources(h, h.graph.edges.len(), repo, t, files, after, n).graph == h.graph,
    decreases n,
{
    if n > 0 {
        let m = with_resources(s, known, repo, t, files, before, (n - 1) as nat);
        let res = t.resources@[n - 1];
        lemma_resource_wired(m, known, repo, t, res, files, before, nodes);
        lemma_wired_trans(m.graph, with_resources(s, known, repo, t, files, before, n).graph, h.graph, nodes);
        lemma_resources_again(s, h, known, repo, t, files, before, after, (n - 1) as nat, nodes);
        let k = with_resources(h, h.graph.edges.len(), repo, t, files, after, (n - 1) as nat);
        lemma_resource_again(m, k, known, repo, t, res, files, before, after, nodes);
    }
}

proof fn lemma_all_resources_wired(
    s: InfraState,
    known: nat,
    repo: Seq<char>,
    ts: Seq<InfraTemplate>,
    files: Seq<FileEntry>,
    fields: Seq<(Seq<char>, Seq<char>)>,
    n: nat,
    nodes: Seq<NodeView>,
)
    requires
        are_resources(nodes),
    ensures
        wired(s.graph, with_all_resources(s, known, repo, ts, files, fields, n).graph, nodes),
    decreases n,
{
    if n > 0 {
        lemma_all_resources_wired(s, known, repo, ts, files, fields, (n - 1) as nat, nodes);
        let m = with_all_resources(s, known, repo, ts, files, fields, (n - 1) as nat);
        let t = ts[n - 1];
        lemma_resources_wired(m, known, repo, t, files, fields, t.resources@.len(), nodes);
        lemma_wired_trans(s.graph, m.graph, with_all_resources(s, known, repo, ts, files, fields, n).graph, nodes);
    }
}

proof fn lemma_all_resources_again(
    s: InfraState,
    h: InfraState,
    known: nat,
    repo: Seq<char>,
    ts: Seq<InfraTemplate>,
    files: Seq<FileEntry>,
    before: Seq<(Seq<char>, Seq<char>)>,
    after: Seq<(Seq<char>, Seq<char>)>,
    n: nat,
    nodes: Seq<NodeView>,
)
    requires
        are_resources(nodes),
        fields_settle(before, after),
        wired(with_all_resources(s, known, repo, ts, files, before, n).graph, h.graph, nodes),
    ensures
        with_all_resources(h, h.graph.edges.len(), repo, ts, files, after, n).graph == h.graph,
    decreases n,
{
    if n > 0 {
        let m = with_all_resources(s, known, repo, ts, files, before, (n - 1) as nat);
        let t = ts[n - 1];
        lemma_resources_wired(m, known, repo, t, files, before, t.resources@.len(), nodes);
        lemma_wired_trans(m.graph, with_all_resources(s, known, repo, ts, files, before, n).graph, h.graph, nodes);
        lemma_all_resources_again(s, h, known, repo, ts, files, before, after, (n - 1) as nat, nodes);
        let k = with_all_resources(h, h.graph.edges.len(), repo, ts, files, after, (n - 1) as nat);
        lemma_resources_again(m, k, known, repo, t, files, before, after, t.resources@.len(), nodes);
    }
}

proof fn lemma_infra_plane_wired(g: GraphView, repo: Seq<char>, ts: Seq<InfraTemplate>, files: Seq<FileEntry>)
    ensures
        ({
            let nodes = template_nodes(repo, ts, ts.len());
            let a = model::with_nodes(g, nodes, nodes.len());
            let h = infra_plane(g, repo, ts, files).graph;
            &&& are_resources(nodes)
            &&& a == with_all_nodes(InfraState { graph: g, counts: InfraCounts::zero() }, repo, ts, ts.len()).graph
            &&& wired(a, h, nodes)
            &&& model::shows(h, nodes, nodes.len())
        }),
{
    let nodes = template_nodes(repo, ts, ts.len());
    let s = InfraState { graph: g, counts: InfraCounts::zero() };
    let a = with_all_nodes(s, repo, ts, ts.len());
    lemma_template_nodes(repo, ts, ts.len());
    lemma_templates_as_nodes(s, repo, ts, ts.len());
    model::lemma_added_shows(g, nodes, nodes.len());
    lemma_all_resources_wired(a, g.edges.len(), repo, ts, files, all_fields(g), ts.len(), nodes);
}

/// Building the infrastructure plane twice is building it once: the second time changes neither a
/// node nor an edge. What is left out is a graph in which the first time makes the name of a field
/// stand for another field, as where the last of two fields of one name has the identifier of a
/// resource.
pub proof fn law_infra_plane_idempotent(g: GraphView, repo: Seq<char>, ts: Seq<InfraTemplate>, files: Seq<FileEntry>)
    requires
        fields_settle(all_fields(g), all_fields(infra_plane(g, repo, ts, files).graph)),
    ensures
        infra_plane(infra_plane(g, repo, ts, files).graph, repo, ts, files).graph == infra_plane(
            g,
            repo,
            ts,
            files,
        ).graph,
{
    let nodes = template_nodes(repo, ts, ts.len());
    let a = with_all_nodes(InfraState { graph: g, counts: InfraCounts::zero() }, repo, ts, ts.len());
    let h = infra_plane(g, repo, ts, files).graph;
    lemma_infra_plane_wired(g, repo, ts, files);
    model::lemma_shown_again(h, nodes);
    let again = InfraState { graph: h, counts: InfraCounts::zero() };
    lemma_templates_as_nodes(again, repo, ts, ts.len());
    let b = with_all_nodes(again, repo, ts, ts.len());
    assert(b.graph == h);
    assert(wired(h, h, nodes));
    lemma_all_resources_again(a, b, g.edges.len(), repo, ts, files, all_fields(g), all_fields(h), ts.len(), nodes);
}

/// Where no GraphQL field has the identifier of a resource or an action, the infrastructure plane
/// leaves the fields as they are, and building it twice is building it once.
pub proof fn law_infra_plane_keeps_fields(
    g: GraphView,
    repo: Seq<char>,
    ts: Seq<InfraTemplate>,
    files: Seq<FileEntry>,
)
    requires
        fields_apart(g),
    ensures
        all_fields(infra_plane(g, repo, ts, files).graph) == all_fields(g),
        infra_plane(infra_plane(g, repo, ts, files).graph, repo, ts, files).graph == infra_plane(
            g,
            repo,
            ts,
            files,
        ).graph,
{
    let nodes = template_nodes(repo, ts, ts.len());
    lemma_infra_plane_wired(g, repo, ts, files);
    lemma_fields_with_nodes(g, nodes, nodes.len());
    law_infra_plane_idempotent(g, repo, ts, files);
}

} // verus!
