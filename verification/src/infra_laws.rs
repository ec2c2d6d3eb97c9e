//! What the infrastructure plane says of a repository, told by its templates and its files.
use vstd::prelude::*;

use crate::analysis::FileEntry;
use crate::growth;
use crate::infra;
use crate::infra::{InfraKind, InfraResource, InfraState, InfraTemplate, RefValue};
use crate::model;
use crate::model::{EdgeKind, EdgeView, GraphView, NodeKind, NodeView, Provenance, Span};
use crate::order;
use crate::text;

verus! {

/// The identifier of a thing that a template names.
pub open spec fn resource_uid(repo: Seq<char>, t: Seq<char>, id: Seq<char>) -> Seq<char> {
    model::uid_text("infra"@, repo, t, id, ""@)
}

/// The identifier of an action.
pub open spec fn action_uid(repo: Seq<char>, action: Seq<char>) -> Seq<char> {
    model::uid_text("iam"@, repo, ""@, action, ""@)
}

/// The node of an action.
pub open spec fn action_fact(repo: Seq<char>, action: Seq<char>) -> NodeView {
    NodeView {
        uid: action_uid(repo, action),
        kind: NodeKind::CloudAction,
        name: action,
        fqn: action,
        path: ""@,
        span: Span { start_line: 0, start_col: 0, end_line: 0, end_col: 0 },
        provenance: Provenance::Extracted,
        confidence: 1_000_000_000,
    }
}

/// The edge that grants an action to a role.
pub open spec fn grant_fact(repo: Seq<char>, role: Seq<char>, action: Seq<char>) -> EdgeView {
    EdgeView {
        src: role,
        dst: action_uid(repo, action),
        kind: EdgeKind::Grants,
        provenance: Provenance::Extracted,
        confidence: 1_000_000_000,
    }
}

/// Whether a graph grants an action to a role.
pub open spec fn is_granted(g: GraphView, repo: Seq<char>, role: Seq<char>, action: Seq<char>) -> bool {
    &&& g.has(action_uid(repo, action))
    &&& exists|e: EdgeView| #[trigger]
        g.edges.contains(e) && e.src == role && e.dst == action_uid(repo, action) && e.kind == EdgeKind::Grants
}

/// Whether two graphs have the same resources.
pub open spec fn same_resources(g: GraphView, h: GraphView) -> bool {
    forall|u: Seq<char>| infra::of_infra(u) ==> #[trigger] h.has(u) == g.has(u)
}

/// Whether `h` is `g` with the edges of `p` and the grants of `q` made, and nothing else.
pub open spec fn wires(
    g: GraphView,
    h: GraphView,
    repo: Seq<char>,
    p: spec_fn(EdgeView) -> bool,
    q: spec_fn(Seq<char>, Seq<char>) -> bool,
) -> bool {
    &&& same_resources(g, h)
    &&& forall|u: Seq<char>| #[trigger] g.has(u) ==> h.has(u)
    &&& forall|e: EdgeView|
        e.kind != EdgeKind::Grants ==> #[trigger] h.edges.contains(e) == (g.edges.contains(e) || p(e))
    &&& forall|e: EdgeView| #[trigger] g.edges.contains(e) ==> h.edges.contains(e)
    &&& forall|e: EdgeView| #[trigger]
        h.edges.contains(e) && e.kind == EdgeKind::Grants ==> g.edges.contains(e) || grants_by(repo, q, e)
    &&& forall|role: Seq<char>, action: Seq<char>| #[trigger] q(role, action) ==> is_granted(h, repo, role, action)
    &&& forall|x: NodeView| #[trigger] h.nodes.contains(x) ==> g.nodes.contains(x) || action_by(repo, q, x)
}

/// Whether an edge is a grant of `q`.
pub open spec fn grants_by(repo: Seq<char>, q: spec_fn(Seq<char>, Seq<char>) -> bool, e: EdgeView) -> bool {
    exists|action: Seq<char>| #[trigger] q(e.src, action) && e == grant_fact(repo, e.src, action)
}

/// Whether a node is that of an action that `q` grants.
pub open spec fn action_by(repo: Seq<char>, q: spec_fn(Seq<char>, Seq<char>) -> bool, x: NodeView) -> bool {
    exists|role: Seq<char>, action: Seq<char>| #[trigger] q(role, action) && x == action_fact(repo, action)
}

proof fn lemma_wires_none(
    g: GraphView,
    repo: Seq<char>,
    p: spec_fn(EdgeView) -> bool,
    q: spec_fn(Seq<char>, Seq<char>) -> bool,
)
    requires
        forall|e: EdgeView| e.kind != EdgeKind::Grants ==> !#[trigger] p(e),
        forall|role: Seq<char>, action: Seq<char>| !#[trigger] q(role, action),
    ensures
        wires(g, g, repo, p, q),
{
}

proof fn lemma_wires_more(
    g: GraphView,
    b: GraphView,
    h: GraphView,
    repo: Seq<char>,
    p: spec_fn(EdgeView) -> bool,
    q: spec_fn(Seq<char>, Seq<char>) -> bool,
    p2: spec_fn(EdgeView) -> bool,
    q2: spec_fn(Seq<char>, Seq<char>) -> bool,
    p3: spec_fn(EdgeView) -> bool,
    q3: spec_fn(Seq<char>, Seq<char>) -> bool,
)
    requires
        wires(g, b, repo, p, q),
        wires(b, h, repo, p2, q2),
        forall|e: EdgeView| e.kind != EdgeKind::Grants ==> #[trigger] p3(e) == (p(e) || p2(e)),
        forall|role: Seq<char>, action: Seq<char>| #[trigger] q3(role, action) == (q(role, action) || q2(role, action)),
    ensures
        wires(g, h, repo, p3, q3),
{
    assert forall|u: Seq<char>| infra::of_infra(u) implies #[trigger] h.has(u) == g.has(u) by {
        assert(h.has(u) == b.has(u));
        assert(b.has(u) == g.has(u));
    }
    assert forall|u: Seq<char>| #[trigger] g.has(u) implies h.has(u) by {
        assert(b.has(u));
    }
    assert forall|e: EdgeView| e.kind != EdgeKind::Grants implies #[trigger] h.edges.contains(e) == (g.edges.contains(e)
        || p3(e)) by {
        assert(b.edges.contains(e) == (g.edges.contains(e) || p(e)));
        assert(p3(e) == (p(e) || p2(e)));
    }
    assert forall|e: EdgeView| #[trigger] g.edges.contains(e) implies h.edges.contains(e) by {
        assert(b.edges.contains(e));
    }
    assert forall|e: EdgeView| #[trigger] h.edges.contains(e) && e.kind == EdgeKind::Grants implies g.edges.contains(e)
        || grants_by(repo, q3, e) by {
        if b.edges.contains(e) {
            if !g.edges.contains(e) {
                let a = choose|a: Seq<char>| #[trigger] q(e.src, a) && e == grant_fact(repo, e.src, a);
                assert(q3(e.src, a));
            }
        } else {
            let a = choose|a: Seq<char>| #[trigger] q2(e.src, a) && e == grant_fact(repo, e.src, a);
            assert(q3(e.src, a));
        }
    }
    assert forall|role: Seq<char>, action: Seq<char>| #[trigger] q3(role, action) implies is_granted(
        h,
        repo,
        role,
        action,
    ) by {
        if q(role, action) {
            let u = action_uid(repo, action);
            assert(is_granted(b, repo, role, action));
            let e = choose|e: EdgeView| #[trigger]
                b.edges.contains(e) && e.src == role && e.dst == u && e.kind == EdgeKind::Grants;
            assert(h.edges.contains(e));
            assert(h.has(u));
        }
    }
    assert forall|x: NodeView| #[trigger] h.nodes.contains(x) implies g.nodes.contains(x) || action_by(repo, q3, x) by {
        if b.nodes.contains(x) {
            if !g.nodes.contains(x) {
                let (role, a) = choose|role: Seq<char>, a: Seq<char>| #[trigger] q(role, a) && x == action_fact(repo, a);
                assert(q3(role, a));
            }
        } else {
            let (role, a) = choose|role: Seq<char>, a: Seq<char>| #[trigger] q2(role, a) && x == action_fact(repo, a);
            assert(q3(role, a));
        }
    }
}

/// No grants.
pub open spec fn no_grants() -> spec_fn(Seq<char>, Seq<char>) -> bool {
    |role: Seq<char>, action: Seq<char>| false
}

proof fn lemma_wires_same(
    g: GraphView,
    h: GraphView,
    repo: Seq<char>,
    p: spec_fn(EdgeView) -> bool,
    q: spec_fn(Seq<char>, Seq<char>) -> bool,
    p2: spec_fn(EdgeView) -> bool,
    q2: spec_fn(Seq<char>, Seq<char>) -> bool,
)
    requires
        wires(g, h, repo, p, q),
        forall|e: EdgeView| e.kind != EdgeKind::Grants ==> #[trigger] p2(e) == p(e),
        forall|role: Seq<char>, action: Seq<char>| #[trigger] q2(role, action) == q(role, action),
    ensures
        wires(g, h, repo, p2, q2),
{
    let none = |e: EdgeView| false;
    lemma_wires_none(h, repo, none, no_grants());
    lemma_wires_more(g, h, h, repo, p, q, none, no_grants(), p2, q2);
}

proof fn lemma_wires_edge(g: GraphView, known: nat, repo: Seq<char>, x: EdgeView, p: spec_fn(EdgeView) -> bool)
    requires
        x.kind != EdgeKind::Grants,
        forall|e: EdgeView| #[trigger] p(e) == (e == x),
    ensures
        wires(g, g.with_new_edge(known, x), repo, p, no_grants()),
{
    let h = g.with_new_edge(known, x);
    assert(forall|u: Seq<char>| #[trigger] h.has(u) == g.has(u));
    assert forall|e: EdgeView| #[trigger] h.edges.contains(e) == (g.edges.contains(e) || e == x) by {
        model::lemma_pushed(g.edges, x, e);
        if g.knows(known, x) {
            let i = choose|i: int| 0 <= i < known && i < g.edges.len() && g.edges[i] == x;
            assert(g.edges.contains(g.edges[i]));
        }
    }
}

// ----------------------------------------------------------------------------------------------
// References
// ----------------------------------------------------------------------------------------------

/// Whether a reference names a resource, as an inference or as a fact.
pub open spec fn refers_to(r: RefValue, id: Seq<char>, inferred: bool) -> bool {
    match r {
        RefValue::Resource(x) => x@ == id && !inferred,
        RefValue::Inferred(x) => x@ == id && inferred,
        RefValue::InferredMulti(xs) => inferred && exists|i: int| 0 <= i < xs@.len() && (#[trigger] xs@[i])@ == id,
        RefValue::Literal(_) => false,
        RefValue::Unresolved(_) => false,
    }
}

/// Whether an edge is that of a reference to a resource of the template: a fact where the reference is
/// one, else an inference. It leads from `node`, or to it where it is reversed.
pub open spec fn linked_to(
    g: GraphView,
    repo: Seq<char>,
    t: Seq<char>,
    node: Seq<char>,
    kind: EdgeKind,
    reversed: bool,
    id: Seq<char>,
    inferred: bool,
    e: EdgeView,
) -> bool {
    let other = resource_uid(repo, t, id);
    &&& g.has(other)
    &&& e.kind == kind
    &&& e.src == if reversed {
        other
    } else {
        node
    }
    &&& e.dst == if reversed {
        node
    } else {
        other
    }
    &&& inferred ==> e.provenance == Provenance::Inferred && e.confidence == 700_000_000
    &&& !inferred ==> e.provenance == Provenance::Extracted && e.confidence == 950_000_000
}

/// Whether an edge is one of a reference.
pub open spec fn ref_gives(
    g: GraphView,
    repo: Seq<char>,
    t: Seq<char>,
    node: Seq<char>,
    r: Option<RefValue>,
    kind: EdgeKind,
    reversed: bool,
    e: EdgeView,
) -> bool {
    r matches Some(v) && exists|id: Seq<char>, inferred: bool| #[trigger]
        refers_to(v, id, inferred) && linked_to(g, repo, t, node, kind, reversed, id, inferred, e)
}

proof fn lemma_targets(r: RefValue, id: Seq<char>, inferred: bool)
    ensures
        infra::ref_targets(Some(r)).contains((id, inferred)) == refers_to(r, id, inferred),
{
    let ts = infra::ref_targets(Some(r));
    match r {
        RefValue::Resource(x) => {
            assert(ts[0] == (x@, false));
        },
        RefValue::Inferred(x) => {
            assert(ts[0] == (x@, true));
        },
        RefValue::InferredMulti(xs) => {
            if ts.contains((id, inferred)) {
                let i = choose|i: int| 0 <= i < ts.len() && ts[i] == (id, inferred);
                assert(xs@[i]@ == id);
            }
            if refers_to(r, id, inferred) {
                let i = choose|i: int| 0 <= i < xs@.len() && (#[trigger] xs@[i])@ == id;
                assert(ts[i] == (id, true));
            }
        },
        RefValue::Literal(_) => {},
        RefValue::Unresolved(_) => {},
    }
}

proof fn lemma_ref_edges(
    g: GraphView,
    base: GraphView,
    known: nat,
    node: Seq<char>,
    repo: Seq<char>,
    t: Seq<char>,
    targets: Seq<(Seq<char>, bool)>,
    kind: EdgeKind,
    reversed: bool,
    n: nat,
)
    requires
        n <= targets.len(),
        kind != EdgeKind::Grants,
        same_resources(g, base),
    ensures
        wires(
            base,
            infra::with_ref_edges(base, known, node, repo, t, targets, kind, reversed, n),
            repo,
            |e: EdgeView|
                exists|k: int|
                    0 <= k < n && linked_to(
                        g,
                        repo,
                        t,
                        node,
                        kind,
                        reversed,
                        (#[trigger] targets[k]).0,
                        targets[k].1,
                        e,
                    ),
            no_grants(),
        ),
    decreases n,
{
    let r = |e: EdgeView|
        exists|k: int|
            0 <= k < n && linked_to(g, repo, t, node, kind, reversed, (#[trigger] targets[k]).0, targets[k].1, e);
    if n > 0 {
        let m = (n - 1) as nat;
        let last = n - 1;
        lemma_ref_edges(g, base, known, node, repo, t, targets, kind, reversed, m);
        let p = |e: EdgeView|
            exists|k: int|
                0 <= k < m && linked_to(g, repo, t, node, kind, reversed, (#[trigger] targets[k]).0, targets[k].1, e);
        let b = infra::with_ref_edges(base, known, node, repo, t, targets, kind, reversed, m);
        let h = infra::with_ref_edges(base, known, node, repo, t, targets, kind, reversed, n);
        let q = |e: EdgeView| linked_to(g, repo, t, node, kind, reversed, targets[last].0, targets[last].1, e);
        let other = resource_uid(repo, t, targets[last].0);
        infra::lemma_prefixes(repo, t, targets[last].0);
        assert(b.has(other) == g.has(other)) by {
            assert(b.has(other) == base.has(other));
            assert(base.has(other) == g.has(other));
        }
        let grade = infra::ref_grade(targets[last].1);
        let x = if reversed {
            model::edge_of(other, node, kind, grade.0, grade.1)
        } else {
            model::edge_of(node, other, kind, grade.0, grade.1)
        };
        if b.has(other) {
            assert(h == b.with_new_edge(known, x));
            lemma_wires_edge(b, known, repo, x, q);
        } else {
            lemma_wires_none(b, repo, q, no_grants());
        }
        assert forall|e: EdgeView| #[trigger] r(e) == (p(e) || q(e)) by {
            if r(e) {
                let k = choose|k: int|
                    0 <= k < n && linked_to(
                        g,
                        repo,
                        t,
                        node,
                        kind,
                        reversed,
                        (#[trigger] targets[k]).0,
                        targets[k].1,
                        e,
                    );
                assert(k < m || k == last);
            }
            if p(e) {
                let k = choose|k: int|
                    0 <= k < m && linked_to(
                        g,
                        repo,
                        t,
                        node,
                        kind,
                        reversed,
                        (#[trigger] targets[k]).0,
                        targets[k].1,
                        e,
                    );
                assert(targets[k].0 == targets[k].0);
            }
        }
        lemma_wires_more(base, b, h, repo, p, no_grants(), q, no_grants(), r, no_grants());
    } else {
        lemma_wires_none(base, repo, r, no_grants());
    }
}

proof fn lemma_ref(
    g: GraphView,
    base: GraphView,
    known: nat,
    node: Seq<char>,
    repo: Seq<char>,
    t: Seq<char>,
    r: Option<RefValue>,
    kind: EdgeKind,
    reversed: bool,
)
    requires
        kind != EdgeKind::Grants,
        same_resources(g, base),
    ensures
        wires(
            base,
            infra::with_ref(base, known, node, repo, t, r, kind, reversed),
            repo,
            |e: EdgeView| ref_gives(g, repo, t, node, r, kind, reversed, e),
            no_grants(),
        ),
{
    let ts = infra::ref_targets(r);
    let h = infra::with_ref(base, known, node, repo, t, r, kind, reversed);
    lemma_ref_edges(g, base, known, node, repo, t, ts, kind, reversed, ts.len());
    let p = |e: EdgeView|
        exists|k: int|
            0 <= k < ts.len() && linked_to(g, repo, t, node, kind, reversed, (#[trigger] ts[k]).0, ts[k].1, e);
    let q = |e: EdgeView| ref_gives(g, repo, t, node, r, kind, reversed, e);
    assert forall|e: EdgeView| #[trigger] q(e) == p(e) by {
        if p(e) {
            let k = choose|k: int|
                0 <= k < ts.len() && linked_to(g, repo, t, node, kind, reversed, (#[trigger] ts[k]).0, ts[k].1, e);
            assert(ts.contains((ts[k].0, ts[k].1)));
            lemma_targets(r->0, ts[k].0, ts[k].1);
            assert(refers_to(r->0, ts[k].0, ts[k].1));
        }
        if q(e) {
            let (id, inferred) = choose|id: Seq<char>, inferred: bool| #[trigger]
                refers_to(r->0, id, inferred) && linked_to(g, repo, t, node, kind, reversed, id, inferred, e);
            lemma_targets(r->0, id, inferred);
            let k = choose|k: int| 0 <= k < ts.len() && ts[k] == (id, inferred);
            assert(ts[k].0 == id);
        }
    }
    lemma_wires_same(base, h, repo, p, no_grants(), q, no_grants());
}

/// Whether an edge says that a resource assumes a role that one of its references names.
pub open spec fn role_gives(g: GraphView, repo: Seq<char>, t: Seq<char>, res: InfraResource, n: int, e: EdgeView) -> bool {
    exists|k: int|
        0 <= k < n && ref_gives(
            g,
            repo,
            t,
            resource_uid(repo, t, res.logical_id@),
            Some(#[trigger] res.role_refs@[k]),
            EdgeKind::Assumes,
            false,
            e,
        )
}

proof fn lemma_roles(g: GraphView, base: GraphView, known: nat, repo: Seq<char>, t: Seq<char>, res: InfraResource, n: nat)
    requires
        n <= res.role_refs@.len(),
        same_resources(g, base),
    ensures
        wires(
            base,
            infra::with_roles(base, known, resource_uid(repo, t, res.logical_id@), repo, t, res.role_refs@, n),
            repo,
            |e: EdgeView| role_gives(g, repo, t, res, n as int, e),
            no_grants(),
        ),
    decreases n,
{
    let r = |e: EdgeView| role_gives(g, repo, t, res, n as int, e);
    if n > 0 {
        let m = (n - 1) as nat;
        let last = n - 1;
        lemma_roles(g, base, known, repo, t, res, m);
        let node = resource_uid(repo, t, res.logical_id@);
        let b = infra::with_roles(base, known, node, repo, t, res.role_refs@, m);
        let h = infra::with_roles(base, known, node, repo, t, res.role_refs@, n);
        let v = Some(res.role_refs@[last]);
        assert(same_resources(g, b)) by {
            assert forall|u: Seq<char>| infra::of_infra(u) implies #[trigger] b.has(u) == g.has(u) by {
                assert(base.has(u) == g.has(u));
            }
        }
        lemma_ref(g, b, known, node, repo, t, v, EdgeKind::Assumes, false);
        let p = |e: EdgeView| role_gives(g, repo, t, res, m as int, e);
        let q = |e: EdgeView| ref_gives(g, repo, t, node, v, EdgeKind::Assumes, false, e);
        assert forall|e: EdgeView| #[trigger] r(e) == (p(e) || q(e)) by {
            if r(e) {
                let k = choose|k: int|
                    0 <= k < n && ref_gives(
                        g,
                        repo,
                        t,
                        node,
                        Some(#[trigger] res.role_refs@[k]),
                        EdgeKind::Assumes,
                        false,
                        e,
                    );
                assert(k < m || k == last);
            }
            if p(e) {
                let k = choose|k: int|
                    0 <= k < m && ref_gives(
                        g,
                        repo,
                        t,
                        node,
                        Some(#[trigger] res.role_refs@[k]),
                        EdgeKind::Assumes,
                        false,
                        e,
                    );
                assert(res.role_refs@[k] == res.role_refs@[k]);
            }
        }
        lemma_wires_more(base, b, h, repo, p, no_grants(), q, no_grants(), r, no_grants());
    } else {
        lemma_wires_none(base, repo, r, no_grants());
    }
}

// ----------------------------------------------------------------------------------------------
// Grants
// ----------------------------------------------------------------------------------------------

/// Whether a resource lists an action: by its name, or as the mark of grants that cannot be listed.
pub open spec fn lists_action(res: InfraResource, action: Seq<char>) -> bool {
    ||| exists|i: int| 0 <= i < res.granted_actions@.len() && (#[trigger] res.granted_actions@[i])@ == action
    ||| exists|i: int|
        0 <= i < res.grants_opaque@.len() && action == "<opaque:"@ + (#[trigger] res.grants_opaque@[i])@ + ">"@
}

proof fn lemma_grant(
    g: GraphView,
    repo: Seq<char>,
    role: Seq<char>,
    action: Seq<char>,
    q: spec_fn(Seq<char>, Seq<char>) -> bool,
)
    requires
        forall|r: Seq<char>, a: Seq<char>| #[trigger] q(r, a) == (r == role && a == action),
    ensures
        wires(g, infra::with_grant(g, repo, role, action), repo, |e: EdgeView| false, q),
{
    let h = infra::with_grant(g, repo, role, action);
    let u = action_uid(repo, action);
    let none = |e: EdgeView| false;
    assert(q(role, action));
    if infra::has_edge(g, role, u, EdgeKind::Grants) {
        let i = choose|i: int|
            0 <= i < g.edges.len() && (#[trigger] g.edges[i]).src == role && g.edges[i].dst == u && g.edges[i].kind
                == EdgeKind::Grants;
        assert(g.edges.contains(g.edges[i]));
        assert(is_granted(h, repo, role, action));
    } else {
        let node = action_fact(repo, action);
        let x = grant_fact(repo, role, action);
        let b = g.with_node(node);
        model::law_with_node(g, node);
        model::lemma_noded(g, node);
        infra::lemma_prefixes(repo, role, action);
        assert(h == b.with_edge(x));
        assert forall|e: EdgeView| #[trigger] h.edges.contains(e) == (g.edges.contains(e) || e == x) by {
            model::lemma_pushed(b.edges, x, e);
        }
        assert(forall|v: Seq<char>| #[trigger] h.has(v) == b.has(v));
        assert(h.edges.contains(x));
        assert(is_granted(h, repo, role, action));
        assert forall|e: EdgeView| #[trigger] h.edges.contains(e) && e.kind == EdgeKind::Grants implies g.edges.contains(
            e,
        ) || grants_by(repo, q, e) by {
            if e == x {
                assert(q(e.src, action));
            }
        }
        assert forall|y: NodeView| #[trigger] h.nodes.contains(y) implies g.nodes.contains(y) || action_by(
            repo,
            q,
            y,
        ) by {
            if y == node {
                assert(q(role, action));
            }
        }
    }
}

proof fn lemma_actions(g: GraphView, repo: Seq<char>, role: Seq<char>, actions: Seq<String>, n: nat)
    requires
        n <= actions.len(),
    ensures
        wires(
            g,
            infra::with_actions(g, repo, role, actions, n),
            repo,
            |e: EdgeView| false,
            |r: Seq<char>, a: Seq<char>| r == role && exists|i: int| 0 <= i < n && (#[trigger] actions[i])@ == a,
        ),
    decreases n,
{
    let none = |e: EdgeView| false;
    let q3 = |r: Seq<char>, a: Seq<char>| r == role && exists|i: int| 0 <= i < n && (#[trigger] actions[i])@ == a;
    if n > 0 {
        let m = (n - 1) as nat;
        let last = n - 1;
        lemma_actions(g, repo, role, actions, m);
        let b = infra::with_actions(g, repo, role, actions, m);
        let h = infra::with_actions(g, repo, role, actions, n);
        let q = |r: Seq<char>, a: Seq<char>| r == role && exists|i: int| 0 <= i < m && (#[trigger] actions[i])@ == a;
        let q2 = |r: Seq<char>, a: Seq<char>| r == role && a == actions[last]@;
        lemma_grant(b, repo, role, actions[last]@, q2);
        assert forall|r: Seq<char>, a: Seq<char>| #[trigger] q3(r, a) == (q(r, a) || q2(r, a)) by {
            if q3(r, a) {
                let i = choose|i: int| 0 <= i < n && (#[trigger] actions[i])@ == a;
                assert(i < m || i == last);
            }
            if q(r, a) {
                let i = choose|i: int| 0 <= i < m && (#[trigger] actions[i])@ == a;
                assert(actions[i]@ == a);
            }
        }
        lemma_wires_more(g, b, h, repo, none, q, none, q2, none, q3);
    } else {
        lemma_wires_none(g, repo, none, q3);
    }
}

proof fn lemma_opaque(g: GraphView, repo: Seq<char>, role: Seq<char>, reasons: Seq<String>, n: nat)
    requires
        n <= reasons.len(),
    ensures
        wires(
            g,
            infra::with_opaque(g, repo, role, reasons, n),
            repo,
            |e: EdgeView| false,
            |r: Seq<char>, a: Seq<char>|
                r == role && exists|i: int| 0 <= i < n && a == "<opaque:"@ + (#[trigger] reasons[i])@ + ">"@,
        ),
    decreases n,
{
    let none = |e: EdgeView| false;
    let q3 = |r: Seq<char>, a: Seq<char>|
        r == role && exists|i: int| 0 <= i < n && a == "<opaque:"@ + (#[trigger] reasons[i])@ + ">"@;
    if n > 0 {
        let m = (n - 1) as nat;
        let last = n - 1;
        lemma_opaque(g, repo, role, reasons, m);
        let b = infra::with_opaque(g, repo, role, reasons, m);
        let h = infra::with_opaque(g, repo, role, reasons, n);
        let q = |r: Seq<char>, a: Seq<char>|
            r == role && exists|i: int| 0 <= i < m && a == "<opaque:"@ + (#[trigger] reasons[i])@ + ">"@;
        let mark = "<opaque:"@ + reasons[last]@ + ">"@;
        let q2 = |r: Seq<char>, a: Seq<char>| r == role && a == mark;
        lemma_grant(b, repo, role, mark, q2);
        assert forall|r: Seq<char>, a: Seq<char>| #[trigger] q3(r, a) == (q(r, a) || q2(r, a)) by {
            if q3(r, a) {
                let i = choose|i: int| 0 <= i < n && a == "<opaque:"@ + (#[trigger] reasons[i])@ + ">"@;
                assert(i < m || i == last);
            }
            if q(r, a) {
                let i = choose|i: int| 0 <= i < m && a == "<opaque:"@ + (#[trigger] reasons[i])@ + ">"@;
                assert(reasons[i]@ == reasons[i]@);
            }
        }
        lemma_wires_more(g, b, h, repo, none, q, none, q2, none, q3);
    } else {
        lemma_wires_none(g, repo, none, q3);
    }
}

proof fn lemma_grants(g: GraphView, repo: Seq<char>, role: Seq<char>, res: InfraResource)
    ensures
        wires(
            g,
            infra::with_grants(g, repo, role, res),
            repo,
            |e: EdgeView| false,
            |r: Seq<char>, a: Seq<char>| r == role && lists_action(res, a),
        ),
{
    let none = |e: EdgeView| false;
    let acts = res.granted_actions@;
    let ops = res.grants_opaque@;
    let b = infra::with_actions(g, repo, role, acts, acts.len());
    let h = infra::with_grants(g, repo, role, res);
    lemma_actions(g, repo, role, acts, acts.len());
    lemma_opaque(b, repo, role, ops, ops.len());
    let q = |r: Seq<char>, a: Seq<char>| r == role && exists|i: int| 0 <= i < acts.len() && (#[trigger] acts[i])@ == a;
    let q2 = |r: Seq<char>, a: Seq<char>|
        r == role && exists|i: int| 0 <= i < ops.len() && a == "<opaque:"@ + (#[trigger] ops[i])@ + ">"@;
    lemma_wires_more(
        g,
        b,
        h,
        repo,
        none,
        q,
        none,
        q2,
        none,
        |r: Seq<char>, a: Seq<char>| r == role && lists_action(res, a),
    );
}

/// Whether a policy gives an action to a role: a role that one of its references names, and that is there.
pub open spec fn policy_grants(
    g: GraphView,
    repo: Seq<char>,
    t: Seq<char>,
    res: InfraResource,
    n: int,
    role: Seq<char>,
    action: Seq<char>,
) -> bool {
    lists_action(res, action) && names_role(g, repo, t, res, n, role)
}

/// Whether a role is one that one of the first `n` references of a policy names.
pub open spec fn names_role(g: GraphView, repo: Seq<char>, t: Seq<char>, res: InfraResource, n: int, role: Seq<char>) -> bool {
    exists|k: int, id: Seq<char>, inferred: bool|
        0 <= k < n && #[trigger] refers_to(res.role_refs@[k], id, inferred) && role == resource_uid(repo, t, id) && g.has(
            role,
        )
}

proof fn lemma_policy_targets(
    g: GraphView,
    s: (GraphView, bool),
    repo: Seq<char>,
    t: Seq<char>,
    res: InfraResource,
    targets: Seq<(Seq<char>, bool)>,
    n: nat,
)
    requires
        n <= targets.len(),
        same_resources(g, s.0),
    ensures
        ({
            let h = infra::with_policy_targets(s, repo, t, res, targets, n);
            &&& wires(
                s.0,
                h.0,
                repo,
                |e: EdgeView| false,
                |r: Seq<char>, a: Seq<char>|
                    lists_action(res, a) && g.has(r) && exists|k: int|
                        0 <= k < n && r == resource_uid(repo, t, (#[trigger] targets[k]).0),
            )
            &&& h.1 == (s.1 || exists|k: int| 0 <= k < n && g.has(resource_uid(repo, t, (#[trigger] targets[k]).0)))
        }),
    decreases n,
{
    let none = |e: EdgeView| false;
    let q3 = |r: Seq<char>, a: Seq<char>|
        lists_action(res, a) && g.has(r) && exists|k: int|
            0 <= k < n && r == resource_uid(repo, t, (#[trigger] targets[k]).0);
    if n > 0 {
        let m = (n - 1) as nat;
        let last = n - 1;
        lemma_policy_targets(g, s, repo, t, res, targets, m);
        let b = infra::with_policy_targets(s, repo, t, res, targets, m);
        let h = infra::with_policy_targets(s, repo, t, res, targets, n);
        let role = resource_uid(repo, t, targets[last].0);
        infra::lemma_prefixes(repo, t, targets[last].0);
        assert(b.0.has(role) == g.has(role)) by {
            assert(b.0.has(role) == s.0.has(role));
            assert(s.0.has(role) == g.has(role));
        }
        let q = |r: Seq<char>, a: Seq<char>|
            lists_action(res, a) && g.has(r) && exists|k: int|
                0 <= k < m && r == resource_uid(repo, t, (#[trigger] targets[k]).0);
        let q2 = |r: Seq<char>, a: Seq<char>| r == role && g.has(role) && lists_action(res, a);
        if g.has(role) {
            let plain = |r: Seq<char>, a: Seq<char>| r == role && lists_action(res, a);
            lemma_grants(b.0, repo, role, res);
            lemma_wires_same(b.0, h.0, repo, none, plain, none, q2);
        } else {
            lemma_wires_none(b.0, repo, none, q2);
        }
        assert forall|r: Seq<char>, a: Seq<char>| #[trigger] q3(r, a) == (q(r, a) || q2(r, a)) by {
            if q3(r, a) {
                let k = choose|k: int| 0 <= k < n && r == resource_uid(repo, t, (#[trigger] targets[k]).0);
                assert(k < m || k == last);
            }
            if q(r, a) {
                let k = choose|k: int| 0 <= k < m && r == resource_uid(repo, t, (#[trigger] targets[k]).0);
                assert(targets[k].0 == targets[k].0);
            }
            if q2(r, a) {
                assert(r == resource_uid(repo, t, targets[last].0));
            }
        }
        lemma_wires_more(s.0, b.0, h.0, repo, none, q, none, q2, none, q3);
    } else {
        lemma_wires_none(s.0, repo, none, q3);
    }
}

proof fn lemma_policy(g: GraphView, s: (GraphView, bool), repo: Seq<char>, t: Seq<char>, res: InfraResource, n: nat)
    requires
        n <= res.role_refs@.len(),
        same_resources(g, s.0),
    ensures
        ({
            let h = infra::with_policy(s, repo, t, res, n);
            &&& wires(
                s.0,
                h.0,
                repo,
                |e: EdgeView| false,
                |r: Seq<char>, a: Seq<char>| policy_grants(g, repo, t, res, n as int, r, a),
            )
            &&& h.1 == (s.1 || exists|role: Seq<char>| #[trigger] names_role(g, repo, t, res, n as int, role))
        }),
    decreases n,
{
    let none = |e: EdgeView| false;
    let q3 = |r: Seq<char>, a: Seq<char>| policy_grants(g, repo, t, res, n as int, r, a);
    if n > 0 {
        let m = (n - 1) as nat;
        let last = n - 1;
        lemma_policy(g, s, repo, t, res, m);
        let v = res.role_refs@[last];
        let ts = infra::targets_of(v);
        let b = infra::with_policy(s, repo, t, res, m);
        let h = infra::with_policy(s, repo, t, res, n);
        assert(same_resources(g, b.0)) by {
            assert forall|u: Seq<char>| infra::of_infra(u) implies #[trigger] b.0.has(u) == g.has(u) by {
                assert(s.0.has(u) == g.has(u));
            }
        }
        lemma_policy_targets(g, b, repo, t, res, ts, ts.len());
        let q = |r: Seq<char>, a: Seq<char>| policy_grants(g, repo, t, res, m as int, r, a);
        let q2 = |r: Seq<char>, a: Seq<char>|
            lists_action(res, a) && g.has(r) && exists|k: int|
                0 <= k < ts.len() && r == resource_uid(repo, t, (#[trigger] ts[k]).0);
        assert forall|role: Seq<char>| #[trigger] names_role(g, repo, t, res, n as int, role) == (names_role(
            g,
            repo,
            t,
            res,
            m as int,
            role,
        ) || (g.has(role) && exists|k: int| 0 <= k < ts.len() && role == resource_uid(repo, t, (#[trigger] ts[k]).0))) by {
            if names_role(g, repo, t, res, n as int, role) {
                let (k, id, inferred) = choose|k: int, id: Seq<char>, inferred: bool|
                    0 <= k < n && #[trigger] refers_to(res.role_refs@[k], id, inferred) && role == resource_uid(
                        repo,
                        t,
                        id,
                    ) && g.has(role);
                if k == last {
                    lemma_targets(v, id, inferred);
                    let j = choose|j: int| 0 <= j < ts.len() && ts[j] == (id, inferred);
                    assert(role == resource_uid(repo, t, ts[j].0));
                } else {
                    assert(k < m);
                }
            }
            if g.has(role) && exists|k: int| 0 <= k < ts.len() && role == resource_uid(repo, t, (#[trigger] ts[k]).0) {
                let k = choose|k: int| 0 <= k < ts.len() && role == resource_uid(repo, t, (#[trigger] ts[k]).0);
                assert(ts.contains((ts[k].0, ts[k].1)));
                lemma_targets(v, ts[k].0, ts[k].1);
                assert(refers_to(res.role_refs@[last], ts[k].0, ts[k].1));
            }
        }
        assert forall|r: Seq<char>, a: Seq<char>| #[trigger] q3(r, a) == (q(r, a) || q2(r, a)) by {
            assert(names_role(g, repo, t, res, n as int, r) == (names_role(g, repo, t, res, m as int, r) || (g.has(r)
                && exists|k: int| 0 <= k < ts.len() && r == resource_uid(repo, t, (#[trigger] ts[k]).0))));
        }
        lemma_wires_more(s.0, b.0, h.0, repo, none, q, none, q2, none, q3);
        if h.1 && !s.1 {
            if b.1 {
                let role = choose|role: Seq<char>| #[trigger] names_role(g, repo, t, res, m as int, role);
                assert(names_role(g, repo, t, res, n as int, role));
            } else {
                let k = choose|k: int| 0 <= k < ts.len() && g.has(resource_uid(repo, t, (#[trigger] ts[k]).0));
                let role = resource_uid(repo, t, ts[k].0);
                assert(names_role(g, repo, t, res, n as int, role));
            }
        }
        if exists|role: Seq<char>| #[trigger] names_role(g, repo, t, res, n as int, role) {
            let role = choose|role: Seq<char>| #[trigger] names_role(g, repo, t, res, n as int, role);
            if !names_role(g, repo, t, res, m as int, role) {
                let k = choose|k: int| 0 <= k < ts.len() && role == resource_uid(repo, t, (#[trigger] ts[k]).0);
                assert(g.has(resource_uid(repo, t, ts[k].0)));
            }
        }
    } else {
        lemma_wires_none(s.0, repo, none, q3);
    }
}

// ----------------------------------------------------------------------------------------------
// The module that a function runs
// ----------------------------------------------------------------------------------------------

/// Whether `dir` is the directory of a path: empty where the path names none.
pub open spec fn is_dir_of(path: Seq<char>, dir: Seq<char>) -> bool {
    ||| !path.contains('/') && dir.len() == 0
    ||| exists|file: Seq<char>| path == #[trigger] (dir + seq!['/'] + file) && !file.contains('/')
}

/// Whether `stem` is what stands before the last dot of a handler, or the handler where it has no dot.
pub open spec fn is_stem_of(handler: Seq<char>, stem: Seq<char>) -> bool {
    ||| !handler.contains('.') && stem == handler
    ||| exists|name: Seq<char>| handler == #[trigger] (stem + seq!['.'] + name) && !name.contains('.')
}

/// A path in a directory, which may be empty.
pub open spec fn below(dir: Seq<char>, path: Seq<char>) -> Seq<char> {
    if dir.len() == 0 {
        path
    } else {
        dir + seq!['/'] + path
    }
}

/// Whether `p` is the file that can hold a handler under an extension: the stem of the handler in the
/// code directory, which is relative to the directory of the template.
pub open spec fn can_hold(t: Seq<char>, code_uri: Option<String>, handler: Seq<char>, ext: Seq<char>, p: Seq<char>) -> bool {
    let code = match code_uri {
        Some(u) => infra::clean_dir(u@),
        None => Seq::empty(),
    };
    exists|dir: Seq<char>, stem: Seq<char>| #[trigger]
        is_dir_of(t, dir) && #[trigger] is_stem_of(handler, stem) && p == below(
            if code.len() == 0 {
                dir
            } else {
                below(dir, code)
            },
            stem + seq!['.'] + ext,
        )
}

/// The extensions of files that can hold a handler.
pub open spec fn code_exts() -> Seq<Seq<char>> {
    seq!["ts"@, "tsx"@, "js"@, "jsx"@, "mjs"@, "cjs"@, "py"@, "pyi"@]
}

/// Whether a file that was analyzed can hold the handler of a function under extension `x`.
pub open spec fn holds_handler(t: Seq<char>, res: InfraResource, files: Seq<FileEntry>, x: int, p: Seq<char>) -> bool {
    &&& 0 <= x < code_exts().len()
    &&& res.handler matches Some(handler) && can_hold(t, res.code_uri, handler@, code_exts()[x], p)
    &&& exists|i: int| 0 <= i < files.len() && (#[trigger] files[i]).path@ == p
}

/// Whether an edge says which module a function runs: that of the one analyzed file that can hold its
/// handler. Where several can, there is none.
pub open spec fn runs_gives(repo: Seq<char>, t: Seq<char>, res: InfraResource, files: Seq<FileEntry>, e: EdgeView) -> bool {
    exists|x: int, p: Seq<char>| #[trigger]
        holds_handler(t, res, files, x, p) && (forall|y: int, w: Seq<char>| #[trigger]
            holds_handler(t, res, files, y, w) ==> y == x) && e == (EdgeView {
            src: resource_uid(repo, t, res.logical_id@),
            dst: model::uid_text(
                if x < 6 {
                    "ts"@
                } else {
                    "py"@
                },
                repo,
                p,
                "<module>"@,
                ""@,
            ),
            kind: EdgeKind::Runs,
            provenance: Provenance::Extracted,
            confidence: 950_000_000,
        })
}

proof fn lemma_dir_of(path: Seq<char>)
    ensures
        forall|dir: Seq<char>| #[trigger] is_dir_of(path, dir) == (dir == text::before_last(path, '/')),
{
    text::lemma_last_position(path, '/');
    assert forall|dir: Seq<char>| #[trigger] is_dir_of(path, dir) == (dir == text::before_last(path, '/')) by {
        if dir == text::before_last(path, '/') {
            if let Some(i) = text::last_position(path, '/') {
                let file = path.skip(i + 1);
                assert(path =~= dir + seq!['/'] + file);
                if file.contains('/') {
                    let k = choose|k: int| 0 <= k < file.len() && file[k] == '/';
                    assert(path[i + 1 + k] == '/');
                }
            }
        }
        if is_dir_of(path, dir) {
            if path.contains('/') {
                let file = choose|file: Seq<char>| path == #[trigger] (dir + seq!['/'] + file) && !file.contains('/');
                lemma_cut_at(path, dir, file, '/');
            } else {
                if exists|file: Seq<char>| path == #[trigger] (dir + seq!['/'] + file) && !file.contains('/') {
                    let file = choose|file: Seq<char>|
                        path == #[trigger] (dir + seq!['/'] + file) && !file.contains('/');
                    assert(path[dir.len() as int] == '/');
                    assert(path.contains(path[dir.len() as int]));
                }
                assert(dir =~= Seq::empty());
            }
        }
    }
}

proof fn lemma_cut_at(s: Seq<char>, a: Seq<char>, b: Seq<char>, c: char)
    requires
        s == a + seq![c] + b,
        !b.contains(c),
    ensures
        text::last_position(s, c) == Some(a.len() as int),
        text::after_last(s, c) == b,
        s.take(a.len() as int) == a,
        s.contains(c),
{
    text::lemma_last_position(s, c);
    assert(s[a.len() as int] == c);
    assert(s.contains(s[a.len() as int]));
    if let Some(i) = text::last_position(s, c) {
        if i > a.len() {
            assert(b[i - a.len() - 1] == c);
            assert(b.contains(b[i - a.len() - 1]));
        }
    }
    assert(s.take(a.len() as int) =~= a);
    assert(s.skip(a.len() as int + 1) =~= b);
}

proof fn lemma_stem_of(handler: Seq<char>)
    ensures
        forall|stem: Seq<char>| #[trigger] is_stem_of(handler, stem) == (stem == infra::handler_stem(handler)),
{
    text::lemma_last_position(handler, '.');
    assert forall|stem: Seq<char>| #[trigger] is_stem_of(handler, stem) == (stem == infra::handler_stem(handler)) by {
        if stem == infra::handler_stem(handler) {
            if let Some(i) = text::last_position(handler, '.') {
                let name = handler.skip(i + 1);
                assert(handler =~= stem + seq!['.'] + name);
                if name.contains('.') {
                    let k = choose|k: int| 0 <= k < name.len() && name[k] == '.';
                    assert(handler[i + 1 + k] == '.');
                }
            }
        }
        if is_stem_of(handler, stem) && handler.contains('.') {
            let name = choose|name: Seq<char>| handler == #[trigger] (stem + seq!['.'] + name) && !name.contains('.');
            lemma_cut_at(handler, stem, name, '.');
        }
        if is_stem_of(handler, stem) && !handler.contains('.') {
            if exists|name: Seq<char>| handler == #[trigger] (stem + seq!['.'] + name) && !name.contains('.') {
                let name = choose|name: Seq<char>|
                    handler == #[trigger] (stem + seq!['.'] + name) && !name.contains('.');
                lemma_cut_at(handler, stem, name, '.');
            }
        }
    }
}

proof fn lemma_code_exts()
    ensures
        code_exts() == infra::handler_exts(),
        code_exts().len() == 8,
        forall|x: int| 0 <= x < 8 ==> !(#[trigger] code_exts()[x]).contains('.'),
        forall|x: int| 0 <= x < 8 ==> (x >= 6 <==> (#[trigger] code_exts()[x] == "py"@ || code_exts()[x] == "pyi"@)),
{
    reveal_strlit("ts");
    reveal_strlit("tsx");
    reveal_strlit("js");
    reveal_strlit("jsx");
    reveal_strlit("mjs");
    reveal_strlit("cjs");
    reveal_strlit("py");
    reveal_strlit("pyi");
    let s = code_exts();
    assert(s[0] == "ts"@ && s[1] == "tsx"@ && s[2] == "js"@ && s[3] == "jsx"@ && s[4] == "mjs"@ && s[5] == "cjs"@
        && s[6] == "py"@ && s[7] == "pyi"@);
    assert forall|x: int| 0 <= x < 8 implies (x >= 6 <==> (#[trigger] s[x] == "py"@ || s[x] == "pyi"@)) by {
        let py = "py"@;
        let pyi = "pyi"@;
        assert(py[0] == 'p' && pyi[0] == 'p');
        if x < 6 {
            assert(s[x][0] != 'p');
        }
    }
}

proof fn lemma_handler_files(t: Seq<char>, code_uri: Option<String>, handler: Seq<char>, x: int, p: Seq<char>)
    requires
        0 <= x < 8,
    ensures
        can_hold(t, code_uri, handler, code_exts()[x], p) == (p == infra::handler_files(t, code_uri, handler)[x]),
        infra::handler_files(t, code_uri, handler).len() == 8,
        forall|repo: Seq<char>| #[trigger]
            infra::handler_module(repo, infra::handler_files(t, code_uri, handler)[x]) == model::uid_text(
                if x < 6 {
                    "ts"@
                } else {
                    "py"@
                },
                repo,
                infra::handler_files(t, code_uri, handler)[x],
                "<module>"@,
                ""@,
            ),
{
    lemma_code_exts();
    lemma_dir_of(t);
    lemma_stem_of(handler);
    reveal_strlit("/");
    reveal_strlit(".");
    assert("/"@ =~= seq!['/']);
    assert("."@ =~= seq!['.']);
    let dir = text::before_last(t, '/');
    let stem = infra::handler_stem(handler);
    assert(is_dir_of(t, dir) && is_stem_of(handler, stem));
    let q = infra::handler_files(t, code_uri, handler)[x];
    let ext = code_exts()[x];
    let base = infra::handler_base(t, code_uri);
    if base.len() == 0 {
        lemma_cut_at(q, stem, ext, '.');
    } else {
        assert(q =~= (base + seq!['/'] + stem) + seq!['.'] + ext);
        lemma_cut_at(q, base + seq!['/'] + stem, ext, '.');
    }
}

proof fn lemma_indexed(files: Seq<FileEntry>, paths: Seq<Seq<char>>, n: nat)
    requires
        n <= paths.len(),
    ensures
        infra::indexed_count(files, paths, n) == order::counted(|i: int| infra::is_indexed(files, paths[i]), n),
        infra::indexed_count(files, paths, n) > 0 ==> exists|i: int|
            0 <= i < n && infra::is_indexed(files, #[trigger] paths[i]) && infra::last_indexed(files, paths, n)
                == paths[i],
    decreases n,
{
    if n > 0 {
        lemma_indexed(files, paths, (n - 1) as nat);
        let last = n - 1;
        if infra::is_indexed(files, paths[last]) {
            assert(infra::last_indexed(files, paths, n) == paths[last]);
        }
    }
}

proof fn lemma_runs(s: InfraState, known: nat, repo: Seq<char>, t: Seq<char>, res: InfraResource, files: Seq<FileEntry>)
    ensures
        wires(
            s.graph,
            infra::with_runs(s, known, repo, t, res, files).graph,
            repo,
            |e: EdgeView| runs_gives(repo, t, res, files, e),
            no_grants(),
        ),
{
    let h = infra::with_runs(s, known, repo, t, res, files).graph;
    let p = |e: EdgeView| runs_gives(repo, t, res, files, e);
    lemma_code_exts();
    if let Some(handler) = res.handler {
        let paths = infra::handler_files(t, res.code_uri, handler@);
        lemma_handler_files(t, res.code_uri, handler@, 0, paths[0]);
        lemma_indexed(files, paths, paths.len());
        let hit = |i: int| infra::is_indexed(files, paths[i]);
        order::lemma_counted(hit, paths.len());
        assert forall|x: int, w: Seq<char>| #[trigger]
            holds_handler(t, res, files, x, w) == (0 <= x < 8 && w == paths[x] && hit(x)) by {
            if 0 <= x < 8 {
                lemma_handler_files(t, res.code_uri, handler@, x, w);
            }
        }
        if infra::indexed_count(files, paths, paths.len()) == 1 {
            let i = choose|i: int|
                0 <= i < paths.len() && infra::is_indexed(files, #[trigger] paths[i]) && infra::last_indexed(
                    files,
                    paths,
                    paths.len(),
                ) == paths[i];
            assert(hit(i));
            lemma_handler_files(t, res.code_uri, handler@, i, paths[i]);
            let x = model::edge_of(
                resource_uid(repo, t, res.logical_id@),
                infra::handler_module(repo, paths[i]),
                EdgeKind::Runs,
                Provenance::Extracted,
                infra::CONF_RUNS,
            );
            assert(holds_handler(t, res, files, i, paths[i]));
            assert forall|y: int, w: Seq<char>| #[trigger] holds_handler(t, res, files, y, w) implies y == i by {
                assert(hit(y));
            }
            assert forall|e: EdgeView| #[trigger] p(e) == (e == x) by {}
            lemma_wires_edge(s.graph, known, repo, x, p);
        } else {
            assert forall|e: EdgeView| !#[trigger] p(e) by {
                if p(e) {
                    let (x, w) = choose|x: int, w: Seq<char>| #[trigger]
                        holds_handler(t, res, files, x, w) && (forall|y: int, v: Seq<char>| #[trigger]
                            holds_handler(t, res, files, y, v) ==> y == x) && e == (EdgeView {
                            src: resource_uid(repo, t, res.logical_id@),
                            dst: model::uid_text(
                                if x < 6 {
                                    "ts"@
                                } else {
                                    "py"@
                                },
                                repo,
                                w,
                                "<module>"@,
                                ""@,
                            ),
                            kind: EdgeKind::Runs,
                            provenance: Provenance::Extracted,
                            confidence: 950_000_000,
                        });
                    assert(hit(x));
                    assert forall|i: int, k: int| 0 <= i < k < paths.len() implies !(#[trigger] hit(i) && #[trigger] hit(
                        k,
                    )) by {
                        if hit(i) && hit(k) {
                            assert(holds_handler(t, res, files, i, paths[i]));
                            assert(holds_handler(t, res, files, k, paths[k]));
                        }
                    }
                }
            }
            lemma_wires_none(s.graph, repo, p, no_grants());
        }
    } else {
        lemma_wires_none(s.graph, repo, p, no_grants());
    }
}

// ----------------------------------------------------------------------------------------------
// The field that a resolver implements
// ----------------------------------------------------------------------------------------------

/// Whether `u` is the GraphQL field of a name: that of the last node of its kind with the name.
pub open spec fn is_field(nodes: Seq<NodeView>, key: Seq<char>, u: Seq<char>) -> bool {
    exists|i: int| #[trigger]
        field_at(nodes, key, i) && nodes[i].uid == u && forall|k: int| #[trigger] field_at(nodes, key, k) ==> k <= i
}

/// Whether node `i` is a GraphQL field of a name.
pub open spec fn field_at(nodes: Seq<NodeView>, key: Seq<char>, i: int) -> bool {
    0 <= i < nodes.len() && nodes[i].kind == NodeKind::GraphqlField && nodes[i].fqn == key
}

proof fn lemma_field_named(nodes: Seq<NodeView>, key: Seq<char>, n: nat)
    requires
        n <= nodes.len(),
    ensures
        ({
            let fields = infra::fields_of(nodes, n);
            match infra::field_named(fields, key, fields.len()) {
                Some(u) => exists|i: int| #[trigger]
                    field_at(nodes, key, i) && i < n && nodes[i].uid == u && forall|k: int|
                        k < n && #[trigger] field_at(nodes, key, k) ==> k <= i,
                None => forall|k: int| k < n ==> !#[trigger] field_at(nodes, key, k),
            }
        }),
    decreases n,
{
    if n > 0 {
        let m = (n - 1) as nat;
        let last = n - 1;
        lemma_field_named(nodes, key, m);
        let rest = infra::fields_of(nodes, m);
        let fields = infra::fields_of(nodes, n);
        if nodes[last].kind == NodeKind::GraphqlField {
            assert(fields == rest.push((nodes[last].fqn, nodes[last].uid)));
            if nodes[last].fqn == key {
                assert(field_at(nodes, key, last));
            } else {
                lemma_prefix_fields(fields, rest, key, rest.len());
            }
        }
        if infra::field_named(fields, key, fields.len()) is Some && !field_at(nodes, key, last) {
            let u = infra::field_named(fields, key, fields.len())->0;
            let i = choose|i: int| #[trigger]
                field_at(nodes, key, i) && i < m && nodes[i].uid == u && forall|k: int|
                    k < m && #[trigger] field_at(nodes, key, k) ==> k <= i;
            assert(field_at(nodes, key, i));
        }
    }
}

proof fn lemma_prefix_fields(
    fields: Seq<(Seq<char>, Seq<char>)>,
    rest: Seq<(Seq<char>, Seq<char>)>,
    key: Seq<char>,
    n: nat,
)
    requires
        n <= rest.len() <= fields.len(),
        forall|i: int| 0 <= i < rest.len() ==> #[trigger] fields[i] == rest[i],
    ensures
        infra::field_named(fields, key, n) == infra::field_named(rest, key, n),
    decreases n,
{
    if n > 0 {
        lemma_prefix_fields(fields, rest, key, (n - 1) as nat);
    }
}

proof fn lemma_is_field(nodes: Seq<NodeView>, key: Seq<char>)
    ensures
        ({
            let fields = infra::fields_of(nodes, nodes.len());
            forall|u: Seq<char>|
                (infra::field_named(fields, key, fields.len()) == Some(u)) == #[trigger] is_field(nodes, key, u)
        }),
{
    lemma_field_named(nodes, key, nodes.len());
    let fields = infra::fields_of(nodes, nodes.len());
    assert forall|u: Seq<char>|
        (infra::field_named(fields, key, fields.len()) == Some(u)) == #[trigger] is_field(nodes, key, u) by {
        match infra::field_named(fields, key, fields.len()) {
            Some(w) => {
                let i = choose|i: int| #[trigger]
                    field_at(nodes, key, i) && i < nodes.len() && nodes[i].uid == w && forall|k: int|
                        k < nodes.len() && #[trigger] field_at(nodes, key, k) ==> k <= i;
                if is_field(nodes, key, u) {
                    let j = choose|j: int| #[trigger]
                        field_at(nodes, key, j) && nodes[j].uid == u && forall|k: int| #[trigger]
                            field_at(nodes, key, k) ==> k <= j;
                    assert(field_at(nodes, key, i) && field_at(nodes, key, j));
                }
            },
            None => {
                if is_field(nodes, key, u) {
                    let j = choose|j: int| #[trigger]
                        field_at(nodes, key, j) && nodes[j].uid == u && forall|k: int| #[trigger]
                            field_at(nodes, key, k) ==> k <= j;
                    assert(j < nodes.len());
                }
            },
        }
    }
}

/// Whether a reference leads to one resource of a kind: the last of the template with the name.
pub open spec fn leads_to(
    resources: Seq<InfraResource>,
    r: Option<RefValue>,
    kind: InfraKind,
    at: int,
    inferred: bool,
) -> bool {
    &&& 0 <= at < resources.len()
    &&& resources[at].kind == kind
    &&& r matches Some(v) && !(v is InferredMulti) && refers_to(v, resources[at].logical_id@, inferred)
    &&& forall|k: int| at < k < resources.len() ==> (#[trigger] resources[k]).logical_id@ != resources[at].logical_id@
}

proof fn lemma_resource_at(resources: Seq<InfraResource>, id: Seq<char>, n: nat)
    requires
        n <= resources.len(),
    ensures
        ({
            let at = infra::resource_at(resources, id, n);
            &&& at < n
            &&& at >= 0 ==> resources[at].logical_id@ == id
            &&& forall|k: int| at < k < n && k >= 0 ==> (#[trigger] resources[k]).logical_id@ != id
        }),
    decreases n,
{
    if n > 0 {
        lemma_resource_at(resources, id, (n - 1) as nat);
    }
}

proof fn lemma_hop(resources: Seq<InfraResource>, r: Option<RefValue>, kind: InfraKind)
    ensures
        match infra::hop(resources, r, kind) {
            Some(p) => leads_to(resources, r, kind, p.0, p.1) && forall|at: int, inferred: bool| #[trigger]
                leads_to(resources, r, kind, at, inferred) ==> at == p.0 && inferred == p.1,
            None => forall|at: int, inferred: bool| !#[trigger] leads_to(resources, r, kind, at, inferred),
        },
{
    if let Some(t) = infra::single_target(r) {
        lemma_resource_at(resources, t.0, resources.len());
        let place = infra::resource_at(resources, t.0, resources.len());
        assert forall|at: int, inferred: bool| #[trigger] leads_to(resources, r, kind, at, inferred) implies at == place
            && inferred == t.1 by {
            assert(resources[at].logical_id@ == t.0);
            if place > at {
                assert(resources[place].logical_id@ != resources[at].logical_id@);
            }
        }
    }
}

/// Whether a resolver leads through a data source to a function that is there, over facts or with an
/// inference.
pub open spec fn chain_to(
    g: GraphView,
    repo: Seq<char>,
    t: InfraTemplate,
    res: InfraResource,
    ds: int,
    f: int,
    a: bool,
    b: bool,
) -> bool {
    &&& leads_to(t.resources@, res.data_source_ref, InfraKind::AppSyncDataSource, ds, a)
    &&& leads_to(t.resources@, t.resources@[ds].lambda_ref, InfraKind::LambdaFunction, f, b)
    &&& g.has(resource_uid(repo, t.path@, t.resources@[f].logical_id@))
}

/// Whether an edge says what implements the field of a resolver: the function at the end of its chain, as
/// an inference where a hop is one; the resolver itself where it has no such chain. Only the fields of
/// root types are told.
pub open spec fn field_gives(
    g: GraphView,
    nodes: Seq<NodeView>,
    repo: Seq<char>,
    t: InfraTemplate,
    res: InfraResource,
    e: EdgeView,
) -> bool {
    &&& res.parent_type matches Some(ty) && (res.field_name matches Some(field) && {
        &&& ty@ == "Query"@ || ty@ == "Mutation"@ || ty@ == "Subscription"@
        &&& is_field(nodes, ty@ + "."@ + field@, e.dst)
    })
    &&& e.kind == EdgeKind::Produces
    &&& {
        ||| exists|ds: int, f: int, a: bool, b: bool| #[trigger]
            chain_to(g, repo, t, res, ds, f, a, b) && e.src == resource_uid(
                repo,
                t.path@,
                t.resources@[f].logical_id@,
            ) && (if a || b {
                e.provenance == Provenance::Inferred && e.confidence == 700_000_000
            } else {
                e.provenance == Provenance::Extracted && e.confidence == 950_000_000
            })
        ||| e.src == resource_uid(repo, t.path@, res.logical_id@) && e.provenance == Provenance::Extracted
            && e.confidence == 950_000_000 && forall|ds: int, f: int, a: bool, b: bool| !#[trigger]
            chain_to(g, repo, t, res, ds, f, a, b)
    }
}

proof fn lemma_producer_of(g: GraphView, s: GraphView, repo: Seq<char>, t: InfraTemplate, res: InfraResource, e: EdgeView)
    requires
        same_resources(g, s),
    ensures
        ({
            let p = infra::producer_of(s, repo, t, res);
            (e.src == p.0 && e.provenance == p.1 && e.confidence == p.2) == {
                ||| exists|ds: int, f: int, a: bool, b: bool| #[trigger]
                    chain_to(g, repo, t, res, ds, f, a, b) && e.src == resource_uid(
                        repo,
                        t.path@,
                        t.resources@[f].logical_id@,
                    ) && (if a || b {
                        e.provenance == Provenance::Inferred && e.confidence == 700_000_000
                    } else {
                        e.provenance == Provenance::Extracted && e.confidence == 950_000_000
                    })
                ||| e.src == resource_uid(repo, t.path@, res.logical_id@) && e.provenance == Provenance::Extracted
                    && e.confidence == 950_000_000 && forall|ds: int, f: int, a: bool, b: bool| !#[trigger]
                    chain_to(g, repo, t, res, ds, f, a, b)
            }
        }),
{
    let rs = t.resources@;
    lemma_hop(rs, res.data_source_ref, InfraKind::AppSyncDataSource);
    if let Some(d) = infra::hop(rs, res.data_source_ref, InfraKind::AppSyncDataSource) {
        lemma_hop(rs, rs[d.0].lambda_ref, InfraKind::LambdaFunction);
        if let Some(f) = infra::hop(rs, rs[d.0].lambda_ref, InfraKind::LambdaFunction) {
            let u = resource_uid(repo, t.path@, rs[f.0].logical_id@);
            infra::lemma_prefixes(repo, t.path@, rs[f.0].logical_id@);
            assert(s.has(u) == g.has(u));
            if g.has(u) {
                assert(chain_to(g, repo, t, res, d.0, f.0, d.1, f.1));
            }
            assert forall|ds: int, k: int, a: bool, b: bool| #[trigger] chain_to(g, repo, t, res, ds, k, a, b) implies ds
                == d.0 && k == f.0 && a == d.1 && b == f.1 by {}
        }
    }
}

proof fn lemma_field(
    g: GraphView,
    s: InfraState,
    known: nat,
    nodes: Seq<NodeView>,
    repo: Seq<char>,
    t: InfraTemplate,
    res: InfraResource,
)
    requires
        same_resources(g, s.graph),
    ensures
        wires(
            s.graph,
            infra::with_field(s, known, repo, t, res, infra::fields_of(nodes, nodes.len())).graph,
            repo,
            |e: EdgeView| field_gives(g, nodes, repo, t, res, e),
            no_grants(),
        ),
{
    let fields = infra::fields_of(nodes, nodes.len());
    let h = infra::with_field(s, known, repo, t, res, fields).graph;
    let p = |e: EdgeView| field_gives(g, nodes, repo, t, res, e);
    match (res.parent_type, res.field_name) {
        (Some(ty), Some(field)) => {
            let key = ty@ + "."@ + field@;
            lemma_is_field(nodes, key);
            if infra::root_type(ty@) {
                match infra::field_named(fields, key, fields.len()) {
                    Some(u) => {
                        let w = infra::producer_of(s.graph, repo, t, res);
                        let x = model::edge_of(w.0, u, EdgeKind::Produces, w.1, w.2);
                        assert(is_field(nodes, key, u));
                        assert forall|e: EdgeView| #[trigger] p(e) == (e == x) by {
                            lemma_producer_of(g, s.graph, repo, t, res, e);
                            if p(e) {
                                assert(is_field(nodes, key, e.dst));
                            }
                        }
                        lemma_wires_edge(s.graph, known, repo, x, p);
                    },
                    None => {
                        assert forall|u: Seq<char>| !#[trigger] is_field(nodes, key, u) by {}
                        lemma_wires_none(s.graph, repo, p, no_grants());
                    },
                }
            } else {
                lemma_wires_none(s.graph, repo, p, no_grants());
            }
        },
        _ => {
            lemma_wires_none(s.graph, repo, p, no_grants());
        },
    }
}

// ----------------------------------------------------------------------------------------------
// The plane
// ----------------------------------------------------------------------------------------------

/// Whether an edge is one of a resource of a template.
pub open spec fn resource_gives(
    g: GraphView,
    nodes: Seq<NodeView>,
    repo: Seq<char>,
    t: InfraTemplate,
    res: InfraResource,
    files: Seq<FileEntry>,
    e: EdgeView,
) -> bool {
    let node = resource_uid(repo, t.path@, res.logical_id@);
    let routes = |r: Option<RefValue>| ref_gives(g, repo, t.path@, node, r, EdgeKind::Routes, false, e);
    let member = ref_gives(g, repo, t.path@, node, res.api_ref, EdgeKind::Contains, true, e);
    ||| res.kind != InfraKind::IamPolicy && role_gives(g, repo, t.path@, res, res.role_refs@.len() as int, e)
    ||| res.kind == InfraKind::LambdaFunction && runs_gives(repo, t.path@, res, files, e)
    ||| res.kind == InfraKind::AppSyncDataSource && (routes(res.lambda_ref) || member)
    ||| res.kind == InfraKind::AppSyncResolver && (routes(res.data_source_ref) || member || field_gives(
        g,
        nodes,
        repo,
        t,
        res,
        e,
    ))
}

/// Whether a resource of a template grants an action to a role: to itself, or by a policy.
pub open spec fn resource_grants(
    g: GraphView,
    repo: Seq<char>,
    t: InfraTemplate,
    res: InfraResource,
    role: Seq<char>,
    action: Seq<char>,
) -> bool {
    if res.kind == InfraKind::IamPolicy {
        policy_grants(g, repo, t.path@, res, res.role_refs@.len() as int, role, action)
    } else {
        role == resource_uid(repo, t.path@, res.logical_id@) && lists_action(res, action)
    }
}

proof fn lemma_same_trans(g: GraphView, b: GraphView, h: GraphView)
    requires
        same_resources(g, b),
        same_resources(b, h),
    ensures
        same_resources(g, h),
{
    assert forall|u: Seq<char>| infra::of_infra(u) implies #[trigger] h.has(u) == g.has(u) by {
        assert(b.has(u) == g.has(u));
    }
}

proof fn lemma_own(
    g: GraphView,
    base: GraphView,
    known: nat,
    repo: Seq<char>,
    t: InfraTemplate,
    res: InfraResource,
)
    requires
        same_resources(g, base),
        res.kind != InfraKind::IamPolicy,
    ensures
        wires(
            base,
            infra::with_own_grants(base, known, repo, t.path@, res),
            repo,
            |e: EdgeView| role_gives(g, repo, t.path@, res, res.role_refs@.len() as int, e),
            |r: Seq<char>, a: Seq<char>| resource_grants(g, repo, t, res, r, a),
        ),
{
    let node = resource_uid(repo, t.path@, res.logical_id@);
    let b = infra::with_roles(base, known, node, repo, t.path@, res.role_refs@, res.role_refs@.len());
    let h = infra::with_own_grants(base, known, repo, t.path@, res);
    lemma_roles(g, base, known, repo, t.path@, res, res.role_refs@.len());
    lemma_grants(b, repo, node, res);
    let p = |e: EdgeView| role_gives(g, repo, t.path@, res, res.role_refs@.len() as int, e);
    let none = |e: EdgeView| false;
    let q = |r: Seq<char>, a: Seq<char>| r == node && lists_action(res, a);
    let q3 = |r: Seq<char>, a: Seq<char>| resource_grants(g, repo, t, res, r, a);
    lemma_wires_more(base, b, h, repo, p, no_grants(), none, q, p, q3);
}

proof fn lemma_resource(
    g: GraphView,
    s: InfraState,
    known: nat,
    nodes: Seq<NodeView>,
    repo: Seq<char>,
    t: InfraTemplate,
    res: InfraResource,
    files: Seq<FileEntry>,
)
    requires
        same_resources(g, s.graph),
    ensures
        wires(
            s.graph,
            infra::with_resource(s, known, repo, t, res, files, infra::fields_of(nodes, nodes.len())).graph,
            repo,
            |e: EdgeView| resource_gives(g, nodes, repo, t, res, files, e),
            |r: Seq<char>, a: Seq<char>| resource_grants(g, repo, t, res, r, a),
        ),
{
    let fields = infra::fields_of(nodes, nodes.len());
    let node = resource_uid(repo, t.path@, res.logical_id@);
    let h = infra::with_resource(s, known, repo, t, res, files, fields).graph;
    let p3 = |e: EdgeView| resource_gives(g, nodes, repo, t, res, files, e);
    let q3 = |r: Seq<char>, a: Seq<char>| resource_grants(g, repo, t, res, r, a);
    let roles = |e: EdgeView| role_gives(g, repo, t.path@, res, res.role_refs@.len() as int, e);
    let none = |e: EdgeView| false;
    if res.kind == InfraKind::IamPolicy {
        lemma_policy(g, (s.graph, false), repo, t.path@, res, res.role_refs@.len());
        let q = |r: Seq<char>, a: Seq<char>|
            policy_grants(g, repo, t.path@, res, res.role_refs@.len() as int, r, a);
        lemma_wires_same(s.graph, h, repo, none, q, p3, q3);
    } else {
        let a = infra::with_own_grants(s.graph, known, repo, t.path@, res);
        lemma_own(g, s.graph, known, repo, t, res);
        lemma_same_trans(g, s.graph, a);
        let sa = InfraState { graph: a, counts: s.counts };
        let member = |e: EdgeView| ref_gives(g, repo, t.path@, node, res.api_ref, EdgeKind::Contains, true, e);
        if res.kind == InfraKind::LambdaFunction {
            lemma_runs(sa, known, repo, t.path@, res, files);
            let runs = |e: EdgeView| runs_gives(repo, t.path@, res, files, e);
            lemma_wires_more(s.graph, a, h, repo, roles, q3, runs, no_grants(), p3, q3);
        } else if res.kind == InfraKind::AppSyncDataSource {
            let routes = |e: EdgeView| ref_gives(g, repo, t.path@, node, res.lambda_ref, EdgeKind::Routes, false, e);
            let both = |e: EdgeView| roles(e) || routes(e);
            let b = infra::with_ref(a, known, node, repo, t.path@, res.lambda_ref, EdgeKind::Routes, false);
            lemma_ref(g, a, known, node, repo, t.path@, res.lambda_ref, EdgeKind::Routes, false);
            lemma_wires_more(s.graph, a, b, repo, roles, q3, routes, no_grants(), both, q3);
            lemma_same_trans(g, a, b);
            lemma_ref(g, b, known, node, repo, t.path@, res.api_ref, EdgeKind::Contains, true);
            lemma_wires_more(s.graph, b, h, repo, both, q3, member, no_grants(), p3, q3);
        } else if res.kind == InfraKind::AppSyncResolver {
            let routes = |e: EdgeView|
                ref_gives(g, repo, t.path@, node, res.data_source_ref, EdgeKind::Routes, false, e);
            let both = |e: EdgeView| roles(e) || routes(e);
            let three = |e: EdgeView| both(e) || member(e);
            let field = |e: EdgeView| field_gives(g, nodes, repo, t, res, e);
            let b = infra::with_ref(a, known, node, repo, t.path@, res.data_source_ref, EdgeKind::Routes, false);
            let c = infra::with_ref(b, known, node, repo, t.path@, res.api_ref, EdgeKind::Contains, true);
            lemma_ref(g, a, known, node, repo, t.path@, res.data_source_ref, EdgeKind::Routes, false);
            lemma_wires_more(s.graph, a, b, repo, roles, q3, routes, no_grants(), both, q3);
            lemma_same_trans(g, a, b);
            lemma_ref(g, b, known, node, repo, t.path@, res.api_ref, EdgeKind::Contains, true);
            lemma_wires_more(s.graph, b, c, repo, both, q3, member, no_grants(), three, q3);
            lemma_same_trans(g, b, c);
            lemma_field(g, InfraState { graph: c, counts: s.counts }, known, nodes, repo, t, res);
            lemma_wires_more(s.graph, c, h, repo, three, q3, field, no_grants(), p3, q3);
        } else {
            lemma_wires_same(s.graph, h, repo, roles, q3, p3, q3);
        }
    }
}

/// Whether an edge is one of the first `n` resources of a template.
pub open spec fn template_gives(
    g: GraphView,
    nodes: Seq<NodeView>,
    repo: Seq<char>,
    t: InfraTemplate,
    files: Seq<FileEntry>,
    n: int,
    e: EdgeView,
) -> bool {
    exists|r: int| 0 <= r < n && resource_gives(g, nodes, repo, t, #[trigger] t.resources@[r], files, e)
}

/// Whether one of the first `n` resources of a template grants an action to a role.
pub open spec fn template_grants(
    g: GraphView,
    repo: Seq<char>,
    t: InfraTemplate,
    n: int,
    role: Seq<char>,
    action: Seq<char>,
) -> bool {
    exists|r: int| 0 <= r < n && resource_grants(g, repo, t, #[trigger] t.resources@[r], role, action)
}

proof fn lemma_resources(
    g: GraphView,
    s: InfraState,
    known: nat,
    nodes: Seq<NodeView>,
    repo: Seq<char>,
    t: InfraTemplate,
    files: Seq<FileEntry>,
    n: nat,
)
    requires
        same_resources(g, s.graph),
        n <= t.resources@.len(),
    ensures
        wires(
            s.graph,
            infra::with_resources(s, known, repo, t, files, infra::fields_of(nodes, nodes.len()), n).graph,
            repo,
            |e: EdgeView| template_gives(g, nodes, repo, t, files, n as int, e),
            |r: Seq<char>, a: Seq<char>| template_grants(g, repo, t, n as int, r, a),
        ),
    decreases n,
{
    let p3 = |e: EdgeView| template_gives(g, nodes, repo, t, files, n as int, e);
    let q3 = |r: Seq<char>, a: Seq<char>| template_grants(g, repo, t, n as int, r, a);
    if n > 0 {
        let m = (n - 1) as nat;
        let last = n - 1;
        lemma_resources(g, s, known, nodes, repo, t, files, m);
        let fields = infra::fields_of(nodes, nodes.len());
        let b = infra::with_resources(s, known, repo, t, files, fields, m);
        let h = infra::with_resources(s, known, repo, t, files, fields, n);
        let res = t.resources@[last];
        lemma_same_trans(g, s.graph, b.graph);
        lemma_resource(g, b, known, nodes, repo, t, res, files);
        let p = |e: EdgeView| template_gives(g, nodes, repo, t, files, m as int, e);
        let q = |r: Seq<char>, a: Seq<char>| template_grants(g, repo, t, m as int, r, a);
        let p2 = |e: EdgeView| resource_gives(g, nodes, repo, t, res, files, e);
        let q2 = |r: Seq<char>, a: Seq<char>| resource_grants(g, repo, t, res, r, a);
        assert forall|e: EdgeView| e.kind != EdgeKind::Grants implies #[trigger] p3(e) == (p(e) || p2(e)) by {
            if p3(e) {
                let r = choose|r: int|
                    0 <= r < n && resource_gives(g, nodes, repo, t, #[trigger] t.resources@[r], files, e);
                assert(r < m || r == last);
            }
            if p(e) {
                let r = choose|r: int|
                    0 <= r < m && resource_gives(g, nodes, repo, t, #[trigger] t.resources@[r], files, e);
                assert(t.resources@[r] == t.resources@[r]);
            }
        }
        assert forall|r: Seq<char>, a: Seq<char>| #[trigger] q3(r, a) == (q(r, a) || q2(r, a)) by {
            if q3(r, a) {
                let k = choose|k: int| 0 <= k < n && resource_grants(g, repo, t, #[trigger] t.resources@[k], r, a);
                assert(k < m || k == last);
            }
            if q(r, a) {
                let k = choose|k: int| 0 <= k < m && resource_grants(g, repo, t, #[trigger] t.resources@[k], r, a);
                assert(t.resources@[k] == t.resources@[k]);
            }
        }
        lemma_wires_more(s.graph, b.graph, h.graph, repo, p, q, p2, q2, p3, q3);
    } else {
        lemma_wires_none(s.graph, repo, p3, q3);
    }
}

/// Whether an edge is one of the resources of the first `n` templates.
pub open spec fn infra_gives(
    g: GraphView,
    nodes: Seq<NodeView>,
    repo: Seq<char>,
    ts: Seq<InfraTemplate>,
    files: Seq<FileEntry>,
    n: int,
    e: EdgeView,
) -> bool {
    exists|t: int|
        0 <= t < n && template_gives(
            g,
            nodes,
            repo,
            #[trigger] ts[t],
            files,
            ts[t].resources@.len() as int,
            e,
        )
}

/// Whether a resource of one of the first `n` templates grants an action to a role.
pub open spec fn infra_grants(
    g: GraphView,
    repo: Seq<char>,
    ts: Seq<InfraTemplate>,
    n: int,
    role: Seq<char>,
    action: Seq<char>,
) -> bool {
    exists|t: int|
        0 <= t < n && template_grants(g, repo, #[trigger] ts[t], ts[t].resources@.len() as int, role, action)
}

proof fn lemma_all_resources(
    g: GraphView,
    s: InfraState,
    known: nat,
    nodes: Seq<NodeView>,
    repo: Seq<char>,
    ts: Seq<InfraTemplate>,
    files: Seq<FileEntry>,
    n: nat,
)
    requires
        same_resources(g, s.graph),
        n <= ts.len(),
    ensures
        wires(
            s.graph,
            infra::with_all_resources(s, known, repo, ts, files, infra::fields_of(nodes, nodes.len()), n).graph,
            repo,
            |e: EdgeView| infra_gives(g, nodes, repo, ts, files, n as int, e),
            |r: Seq<char>, a: Seq<char>| infra_grants(g, repo, ts, n as int, r, a),
        ),
    decreases n,
{
    let p3 = |e: EdgeView| infra_gives(g, nodes, repo, ts, files, n as int, e);
    let q3 = |r: Seq<char>, a: Seq<char>| infra_grants(g, repo, ts, n as int, r, a);
    if n > 0 {
        let m = (n - 1) as nat;
        let last = n - 1;
        lemma_all_resources(g, s, known, nodes, repo, ts, files, m);
        let fields = infra::fields_of(nodes, nodes.len());
        let b = infra::with_all_resources(s, known, repo, ts, files, fields, m);
        let h = infra::with_all_resources(s, known, repo, ts, files, fields, n);
        let t = ts[last];
        let size = t.resources@.len();
        lemma_same_trans(g, s.graph, b.graph);
        lemma_resources(g, b, known, nodes, repo, t, files, size);
        let p = |e: EdgeView| infra_gives(g, nodes, repo, ts, files, m as int, e);
        let q = |r: Seq<char>, a: Seq<char>| infra_grants(g, repo, ts, m as int, r, a);
        let p2 = |e: EdgeView| template_gives(g, nodes, repo, t, files, size as int, e);
        let q2 = |r: Seq<char>, a: Seq<char>| template_grants(g, repo, t, size as int, r, a);
        assert forall|e: EdgeView| e.kind != EdgeKind::Grants implies #[trigger] p3(e) == (p(e) || p2(e)) by {
            if p3(e) {
                let k = choose|k: int|
                    0 <= k < n && template_gives(
                        g,
                        nodes,
                        repo,
                        #[trigger] ts[k],
                        files,
                        ts[k].resources@.len() as int,
                        e,
                    );
                assert(k < m || k == last);
            }
            if p(e) {
                let k = choose|k: int|
                    0 <= k < m && template_gives(
                        g,
                        nodes,
                        repo,
                        #[trigger] ts[k],
                        files,
                        ts[k].resources@.len() as int,
                        e,
                    );
                assert(ts[k] == ts[k]);
            }
        }
        assert forall|r: Seq<char>, a: Seq<char>| #[trigger] q3(r, a) == (q(r, a) || q2(r, a)) by {
            if q3(r, a) {
                let k = choose|k: int|
                    0 <= k < n && template_grants(g, repo, #[trigger] ts[k], ts[k].resources@.len() as int, r, a);
                assert(k < m || k == last);
            }
            if q(r, a) {
                let k = choose|k: int|
                    0 <= k < m && template_grants(g, repo, #[trigger] ts[k], ts[k].resources@.len() as int, r, a);
                assert(ts[k] == ts[k]);
            }
        }
        lemma_wires_more(s.graph, b.graph, h.graph, repo, p, q, p2, q2, p3, q3);
    } else {
        lemma_wires_none(s.graph, repo, p3, q3);
    }
}

/// Whether a node is that of a resource of a template. A policy is no node.
pub open spec fn is_resource_node(repo: Seq<char>, t: InfraTemplate, r: int, x: NodeView) -> bool {
    let res = t.resources@[r];
    &&& 0 <= r < t.resources@.len()
    &&& res.kind != InfraKind::IamPolicy
    &&& x.uid == resource_uid(repo, t.path@, res.logical_id@)
    &&& x.name == res.logical_id@ && x.fqn == res.logical_id@ && x.path == t.path@
    &&& x.provenance == Provenance::Extracted && x.confidence == 1_000_000_000
    &&& x.span == (Span { start_line: 0, start_col: 0, end_line: 0, end_col: 0 })
    &&& x.kind == NodeKind::LambdaFn <==> res.kind == InfraKind::LambdaFunction
    &&& x.kind == NodeKind::IamRole <==> res.kind == InfraKind::IamRole
    &&& x.kind == NodeKind::AppSyncApi <==> res.kind == InfraKind::AppSyncApi
    &&& x.kind == NodeKind::AppSyncResolver <==> res.kind == InfraKind::AppSyncResolver
    &&& x.kind == NodeKind::AppSyncDataSource <==> res.kind == InfraKind::AppSyncDataSource
    &&& x.kind == NodeKind::CloudResource <==> res.kind == InfraKind::Generic
}

/// Whether a node is that of one of the first `n` resources of a template.
pub open spec fn template_node(repo: Seq<char>, t: InfraTemplate, n: int, x: NodeView) -> bool {
    exists|r: int| r < n && #[trigger] is_resource_node(repo, t, r, x)
}

proof fn lemma_nodes(s: InfraState, repo: Seq<char>, t: InfraTemplate, n: nat)
    requires
        n <= t.resources@.len(),
    ensures
        growth::nodes_from(
            s.graph,
            infra::with_nodes(s, repo, t, n).graph,
            |x: NodeView| template_node(repo, t, n as int, x),
        ),
    decreases n,
{
    let r = |x: NodeView| template_node(repo, t, n as int, x);
    if n > 0 {
        let m = (n - 1) as nat;
        let last = n - 1;
        lemma_nodes(s, repo, t, m);
        let b = infra::with_nodes(s, repo, t, m).graph;
        let h = infra::with_nodes(s, repo, t, n).graph;
        let res = t.resources@[last];
        let node = infra::resource_node(repo, t.path@, res);
        let p = |x: NodeView| template_node(repo, t, m as int, x);
        let q = |x: NodeView| x == node && res.kind != InfraKind::IamPolicy;
        assert forall|x: NodeView| #[trigger] is_resource_node(repo, t, last, x) == q(x) by {}
        if res.kind == InfraKind::IamPolicy {
            growth::lemma_nodes_none(b, q);
        } else {
            growth::lemma_nodes_one(b, node, q);
        }
        assert forall|x: NodeView| #[trigger] r(x) == (p(x) || q(x)) by {
            assert(is_resource_node(repo, t, last, x) == q(x));
            if r(x) {
                let k = choose|k: int| k < n && #[trigger] is_resource_node(repo, t, k, x);
                assert(k < m || k == last);
            }
        }
        growth::lemma_nodes_more(s.graph, b, h, p, q, r);
    } else {
        growth::lemma_nodes_none(s.graph, r);
    }
}

proof fn lemma_all_nodes(s: InfraState, repo: Seq<char>, ts: Seq<InfraTemplate>, n: nat)
    requires
        n <= ts.len(),
    ensures
        growth::nodes_from(
            s.graph,
            infra::with_all_nodes(s, repo, ts, n).graph,
            |x: NodeView|
                exists|t: int| 0 <= t < n && template_node(repo, #[trigger] ts[t], ts[t].resources@.len() as int, x),
        ),
    decreases n,
{
    let r = |x: NodeView|
        exists|t: int| 0 <= t < n && template_node(repo, #[trigger] ts[t], ts[t].resources@.len() as int, x);
    if n > 0 {
        let m = (n - 1) as nat;
        let last = n - 1;
        lemma_all_nodes(s, repo, ts, m);
        let b = infra::with_all_nodes(s, repo, ts, m);
        let h = infra::with_all_nodes(s, repo, ts, n);
        let t = ts[last];
        lemma_nodes(b, repo, t, t.resources@.len());
        let p = |x: NodeView|
            exists|t: int| 0 <= t < m && template_node(repo, #[trigger] ts[t], ts[t].resources@.len() as int, x);
        let q = |x: NodeView| template_node(repo, t, t.resources@.len() as int, x);
        assert forall|x: NodeView| #[trigger] r(x) == (p(x) || q(x)) by {
            if r(x) {
                let k = choose|k: int|
                    0 <= k < n && template_node(repo, #[trigger] ts[k], ts[k].resources@.len() as int, x);
                assert(k < m || k == last);
            }
            if p(x) {
                let k = choose|k: int|
                    0 <= k < m && template_node(repo, #[trigger] ts[k], ts[k].resources@.len() as int, x);
                assert(ts[k] == ts[k]);
            }
        }
        growth::lemma_nodes_more(s.graph, b.graph, h.graph, p, q, r);
    } else {
        growth::lemma_nodes_none(s.graph, r);
    }
}

/// The edges of the infrastructure plane: an edge other than a grant is one of it exactly if the graph had
/// it, or a resource of a template gives it. Every grant of a resource is made, to a role that is there,
/// and every grant that the graph did not have is one of a resource.
pub proof fn law_infra_edges(g: GraphView, repo: Seq<char>, ts: Seq<InfraTemplate>, files: Seq<FileEntry>)
    ensures
        ({
            let h = infra::infra_plane(g, repo, ts, files).graph;
            &&& forall|e: EdgeView|
                e.kind != EdgeKind::Grants ==> #[trigger] h.edges.contains(e) == (g.edges.contains(e) || infra_gives(
                    h,
                    g.nodes,
                    repo,
                    ts,
                    files,
                    ts.len() as int,
                    e,
                ))
            &&& forall|role: Seq<char>, action: Seq<char>| #[trigger]
                infra_grants(h, repo, ts, ts.len() as int, role, action) ==> is_granted(h, repo, role, action)
            &&& forall|e: EdgeView| #[trigger]
                h.edges.contains(e) && e.kind == EdgeKind::Grants ==> g.edges.contains(e) || exists|action: Seq<char>| #[trigger]
                    infra_grants(h, repo, ts, ts.len() as int, e.src, action) && e == grant_fact(repo, e.src, action)
            &&& forall|e: EdgeView| #[trigger] g.edges.contains(e) ==> h.edges.contains(e)
        }),
{
    let h = infra::infra_plane(g, repo, ts, files).graph;
    let s = InfraState { graph: g, counts: infra::InfraCounts::zero() };
    let a = infra::with_all_nodes(s, repo, ts, ts.len());
    lemma_all_nodes(s, repo, ts, ts.len());
    lemma_all_resources(a.graph, a, g.edges.len(), g.nodes, repo, ts, files, ts.len());
    assert(same_resources(h, a.graph)) by {
        assert forall|u: Seq<char>| infra::of_infra(u) implies #[trigger] a.graph.has(u) == h.has(u) by {}
    }
    lemma_all_resources(h, a, g.edges.len(), g.nodes, repo, ts, files, ts.len());
    let q = |r: Seq<char>, c: Seq<char>| infra_grants(h, repo, ts, ts.len() as int, r, c);
    assert forall|role: Seq<char>, action: Seq<char>| #[trigger]
        infra_grants(h, repo, ts, ts.len() as int, role, action) implies is_granted(h, repo, role, action) by {
        assert(q(role, action));
    }
    assert forall|e: EdgeView| #[trigger] h.edges.contains(e) && e.kind == EdgeKind::Grants implies g.edges.contains(e)
        || exists|action: Seq<char>| #[trigger]
        infra_grants(h, repo, ts, ts.len() as int, e.src, action) && e == grant_fact(repo, e.src, action) by {
        if !g.edges.contains(e) {
            assert(grants_by(repo, q, e));
            let c = choose|c: Seq<char>| #[trigger] q(e.src, c) && e == grant_fact(repo, e.src, c);
            assert(infra_grants(h, repo, ts, ts.len() as int, e.src, c));
        }
    }
}

/// The nodes of the infrastructure plane: every resource but a policy is one, of the kind that its type
/// gives, and so is every action that is granted; nothing else is added.
pub proof fn law_infra_nodes(g: GraphView, repo: Seq<char>, ts: Seq<InfraTemplate>, files: Seq<FileEntry>)
    ensures
        ({
            let h = infra::infra_plane(g, repo, ts, files).graph;
            &&& forall|t: int, r: int, x: NodeView|
                0 <= t < ts.len() && #[trigger] is_resource_node(repo, ts[t], r, x) ==> h.has(x.uid)
            &&& forall|x: NodeView| #[trigger]
                h.nodes.contains(x) ==> {
                    ||| g.nodes.contains(x)
                    ||| exists|t: int, r: int| 0 <= t < ts.len() && #[trigger] is_resource_node(repo, ts[t], r, x)
                    ||| exists|role: Seq<char>, action: Seq<char>| #[trigger]
                        infra_grants(h, repo, ts, ts.len() as int, role, action) && x == action_fact(repo, action)
                }
        }),
{
    let h = infra::infra_plane(g, repo, ts, files).graph;
    let s = InfraState { graph: g, counts: infra::InfraCounts::zero() };
    let a = infra::with_all_nodes(s, repo, ts, ts.len());
    lemma_all_nodes(s, repo, ts, ts.len());
    lemma_all_resources(a.graph, a, g.edges.len(), g.nodes, repo, ts, files, ts.len());
    assert(same_resources(h, a.graph)) by {
        assert forall|u: Seq<char>| infra::of_infra(u) implies #[trigger] a.graph.has(u) == h.has(u) by {}
    }
    lemma_all_resources(h, a, g.edges.len(), g.nodes, repo, ts, files, ts.len());
    let r = |x: NodeView|
        exists|t: int|
            0 <= t < ts.len() && template_node(repo, #[trigger] ts[t], ts[t].resources@.len() as int, x);
    let q = |r: Seq<char>, c: Seq<char>| infra_grants(h, repo, ts, ts.len() as int, r, c);
    assert forall|t: int, k: int, x: NodeView|
        0 <= t < ts.len() && #[trigger] is_resource_node(repo, ts[t], k, x) implies h.has(x.uid) by {
        assert(template_node(repo, ts[t], ts[t].resources@.len() as int, x));
        assert(r(x));
        assert(a.graph.has(x.uid));
    }
    assert forall|x: NodeView| #[trigger] h.nodes.contains(x) implies {
        ||| g.nodes.contains(x)
        ||| exists|t: int, r: int| 0 <= t < ts.len() && #[trigger] is_resource_node(repo, ts[t], r, x)
        ||| exists|role: Seq<char>, action: Seq<char>| #[trigger]
            infra_grants(h, repo, ts, ts.len() as int, role, action) && x == action_fact(repo, action)
    } by {
        if a.graph.nodes.contains(x) {
            if !g.nodes.contains(x) {
                assert(r(x));
                let t = choose|t: int|
                    0 <= t < ts.len() && template_node(repo, #[trigger] ts[t], ts[t].resources@.len() as int, x);
                let k = choose|k: int| k < ts[t].resources@.len() && #[trigger] is_resource_node(repo, ts[t], k, x);
                assert(is_resource_node(repo, ts[t], k, x));
            }
        } else {
            assert(action_by(repo, q, x));
            let (role, c) = choose|role: Seq<char>, c: Seq<char>| #[trigger] q(role, c) && x == action_fact(repo, c);
            assert(infra_grants(h, repo, ts, ts.len() as int, role, c));
        }
    }
}

// ----------------------------------------------------------------------------------------------
// The counts
// ----------------------------------------------------------------------------------------------

/// What a resource counts as.
pub enum Tally {
    Runs,
    Unresolved,
    Linked,
    Unlinked,
    Unattributed,
}

/// Whether a resource counts: a function as one whose module is known or not, a resolver of a root field
/// as linked or not, a policy as one whose grants go to no role.
pub open spec fn counts_as(
    g: GraphView,
    nodes: Seq<NodeView>,
    repo: Seq<char>,
    t: InfraTemplate,
    res: InfraResource,
    files: Seq<FileEntry>,
    tally: Tally,
) -> bool {
    let runs = exists|e: EdgeView| #[trigger] runs_gives(repo, t.path@, res, files, e);
    let root = res.parent_type matches Some(ty) && res.field_name is Some && (ty@ == "Query"@ || ty@ == "Mutation"@
        || ty@ == "Subscription"@);
    let linked = exists|u: Seq<char>| #[trigger]
        is_field(nodes, res.parent_type->0@ + "."@ + res.field_name->0@, u);
    let attributed = exists|role: Seq<char>| #[trigger]
        names_role(g, repo, t.path@, res, res.role_refs@.len() as int, role);
    match tally {
        Tally::Runs => res.kind == InfraKind::LambdaFunction && runs,
        Tally::Unresolved => res.kind == InfraKind::LambdaFunction && res.handler is Some && !runs,
        Tally::Linked => res.kind == InfraKind::AppSyncResolver && root && linked,
        Tally::Unlinked => res.kind == InfraKind::AppSyncResolver && root && !linked,
        Tally::Unattributed => res.kind == InfraKind::IamPolicy && !attributed && exists|action: Seq<char>| #[trigger]
            lists_action(res, action),
    }
}

/// A count.
pub open spec fn tallied(c: infra::InfraCounts, tally: Tally) -> nat {
    match tally {
        Tally::Runs => c.runs,
        Tally::Unresolved => c.unresolved,
        Tally::Linked => c.linked,
        Tally::Unlinked => c.unlinked,
        Tally::Unattributed => c.unattributed,
    }
}

proof fn lemma_runs_counted(
    s: InfraState,
    known: nat,
    repo: Seq<char>,
    t: Seq<char>,
    res: InfraResource,
    files: Seq<FileEntry>,
)
    ensures
        ({
            let c = infra::with_runs(s, known, repo, t, res, files).counts;
            let runs = exists|e: EdgeView| #[trigger] runs_gives(repo, t, res, files, e);
            &&& c.runs == s.counts.runs + if runs {
                1nat
            } else {
                0
            }
            &&& c.unresolved == s.counts.unresolved + if res.handler is Some && !runs {
                1nat
            } else {
                0
            }
            &&& c == infra::InfraCounts { runs: c.runs, unresolved: c.unresolved, ..s.counts }
        }),
{
    let none = GraphView::empty();
    let z = InfraState { graph: none, counts: s.counts };
    lemma_runs(z, 0, repo, t, res, files);
    let h = infra::with_runs(z, 0, repo, t, res, files).graph;
    let p = |e: EdgeView| runs_gives(repo, t, res, files, e);
    if let Some(handler) = res.handler {
        let paths = infra::handler_files(t, res.code_uri, handler@);
        if infra::indexed_count(files, paths, paths.len()) == 1 {
            let x = model::edge_of(
                infra::infra_id(repo, t, res.logical_id@),
                infra::handler_module(repo, infra::last_indexed(files, paths, paths.len())),
                EdgeKind::Runs,
                Provenance::Extracted,
                infra::CONF_RUNS,
            );
            assert(h == none.with_edge(x));
            assert(h.edges[0] == x);
            assert(h.edges.contains(x));
            assert(p(x));
            assert(runs_gives(repo, t, res, files, x));
        } else {
            assert(h == none);
            assert forall|e: EdgeView| !#[trigger] runs_gives(repo, t, res, files, e) by {
                if runs_gives(repo, t, res, files, e) {
                    assert(e.kind == EdgeKind::Runs);
                    assert(p(e));
                    assert(h.edges.contains(e));
                }
            }
        }
    } else {
        assert forall|e: EdgeView| !#[trigger] runs_gives(repo, t, res, files, e) by {}
    }
}

proof fn lemma_lists_something(res: InfraResource)
    ensures
        infra::grants_something(res) <==> exists|action: Seq<char>| #[trigger] lists_action(res, action),
{
    if res.granted_actions@.len() > 0 {
        let a = res.granted_actions@[0]@;
        assert(lists_action(res, a));
    }
    if res.grants_opaque@.len() > 0 {
        let a = "<opaque:"@ + res.grants_opaque@[0]@ + ">"@;
        assert(lists_action(res, a));
    }
}

proof fn lemma_resource_counted(
    g: GraphView,
    s: InfraState,
    known: nat,
    nodes: Seq<NodeView>,
    repo: Seq<char>,
    t: InfraTemplate,
    res: InfraResource,
    files: Seq<FileEntry>,
    tally: Tally,
)
    requires
        same_resources(g, s.graph),
    ensures
        tallied(
            infra::with_resource(s, known, repo, t, res, files, infra::fields_of(nodes, nodes.len())).counts,
            tally,
        ) == tallied(s.counts, tally) + if counts_as(g, nodes, repo, t, res, files, tally) {
            1nat
        } else {
            0
        },
{
    let a = InfraState {
        graph: if res.kind == InfraKind::IamPolicy {
            s.graph
        } else {
            infra::with_own_grants(s.graph, known, repo, t.path@, res)
        },
        counts: s.counts,
    };
    match res.kind {
        InfraKind::LambdaFunction => {
            lemma_runs_counted(a, known, repo, t.path@, res, files);
        },
        InfraKind::AppSyncResolver => {
            match (res.parent_type, res.field_name) {
                (Some(ty), Some(field)) => {
                    let key = ty@ + "."@ + field@;
                    let fields = infra::fields_of(nodes, nodes.len());
                    lemma_is_field(nodes, key);
                    match infra::field_named(fields, key, fields.len()) {
                        Some(u) => {
                            assert(is_field(nodes, key, u));
                        },
                        None => {
                            assert forall|u: Seq<char>| !#[trigger] is_field(nodes, key, u) by {}
                        },
                    }
                },
                _ => {},
            }
        },
        InfraKind::IamPolicy => {
            lemma_policy(g, (a.graph, false), repo, t.path@, res, res.role_refs@.len());
            lemma_lists_something(res);
        },
        _ => {},
    }
}

/// How many of the resources of the first `n` templates count.
pub open spec fn tally_of(
    g: GraphView,
    nodes: Seq<NodeView>,
    repo: Seq<char>,
    ts: Seq<InfraTemplate>,
    files: Seq<FileEntry>,
    tally: Tally,
    n: nat,
) -> nat
    decreases n,
{
    if n == 0 {
        0
    } else {
        let t = ts[n - 1];
        tally_of(g, nodes, repo, ts, files, tally, (n - 1) as nat) + order::counted(
            |r: int| counts_as(g, nodes, repo, t, t.resources@[r], files, tally),
            t.resources@.len(),
        )
    }
}

proof fn lemma_resources_counted(
    g: GraphView,
    s: InfraState,
    known: nat,
    nodes: Seq<NodeView>,
    repo: Seq<char>,
    t: InfraTemplate,
    files: Seq<FileEntry>,
    n: nat,
    tally: Tally,
)
    requires
        same_resources(g, s.graph),
        n <= t.resources@.len(),
    ensures
        tallied(
            infra::with_resources(s, known, repo, t, files, infra::fields_of(nodes, nodes.len()), n).counts,
            tally,
        ) == tallied(s.counts, tally) + order::counted(
            |r: int| counts_as(g, nodes, repo, t, t.resources@[r], files, tally),
            n,
        ),
    decreases n,
{
    if n > 0 {
        let m = (n - 1) as nat;
        lemma_resources_counted(g, s, known, nodes, repo, t, files, m, tally);
        lemma_resources(g, s, known, nodes, repo, t, files, m);
        let b = infra::with_resources(s, known, repo, t, files, infra::fields_of(nodes, nodes.len()), m);
        lemma_same_trans(g, s.graph, b.graph);
        lemma_resource_counted(g, b, known, nodes, repo, t, t.resources@[n - 1], files, tally);
    }
}

proof fn lemma_all_counted(
    g: GraphView,
    s: InfraState,
    known: nat,
    nodes: Seq<NodeView>,
    repo: Seq<char>,
    ts: Seq<InfraTemplate>,
    files: Seq<FileEntry>,
    n: nat,
    tally: Tally,
)
    requires
        same_resources(g, s.graph),
        n <= ts.len(),
    ensures
        tallied(
            infra::with_all_resources(s, known, repo, ts, files, infra::fields_of(nodes, nodes.len()), n).counts,
            tally,
        ) == tallied(s.counts, tally) + tally_of(g, nodes, repo, ts, files, tally, n),
    decreases n,
{
    if n > 0 {
        let m = (n - 1) as nat;
        lemma_all_counted(g, s, known, nodes, repo, ts, files, m, tally);
        lemma_all_resources(g, s, known, nodes, repo, ts, files, m);
        let b = infra::with_all_resources(s, known, repo, ts, files, infra::fields_of(nodes, nodes.len()), m);
        lemma_same_trans(g, s.graph, b.graph);
        let t = ts[n - 1];
        lemma_resources_counted(g, b, known, nodes, repo, t, files, t.resources@.len(), tally);
    }
}

proof fn lemma_nodes_uncounted(s: InfraState, repo: Seq<char>, t: InfraTemplate, n: nat, tally: Tally)
    ensures
        tallied(infra::with_nodes(s, repo, t, n).counts, tally) == tallied(s.counts, tally),
    decreases n,
{
    if n > 0 {
        lemma_nodes_uncounted(s, repo, t, (n - 1) as nat, tally);
    }
}

proof fn lemma_all_nodes_uncounted(s: InfraState, repo: Seq<char>, ts: Seq<InfraTemplate>, n: nat, tally: Tally)
    ensures
        tallied(infra::with_all_nodes(s, repo, ts, n).counts, tally) == tallied(s.counts, tally),
    decreases n,
{
    if n > 0 {
        lemma_all_nodes_uncounted(s, repo, ts, (n - 1) as nat, tally);
        let b = infra::with_all_nodes(s, repo, ts, (n - 1) as nat);
        lemma_nodes_uncounted(b, repo, ts[n - 1], ts[n - 1].resources@.len(), tally);
    }
}

/// What is reported is what happened: as many functions are counted as running a known module as give
/// such an edge, as many resolvers as linked as have a field, and as many policies as unattributed as
/// list an action and name no role that is there.
pub proof fn law_infra_counts(g: GraphView, repo: Seq<char>, ts: Seq<InfraTemplate>, files: Seq<FileEntry>, tally: Tally)
    ensures
        ({
            let d = infra::infra_plane(g, repo, ts, files);
            tallied(d.counts, tally) == tally_of(d.graph, g.nodes, repo, ts, files, tally, ts.len())
        }),
{
    let h = infra::infra_plane(g, repo, ts, files).graph;
    let s = InfraState { graph: g, counts: infra::InfraCounts::zero() };
    let a = infra::with_all_nodes(s, repo, ts, ts.len());
    lemma_all_nodes_uncounted(s, repo, ts, ts.len(), tally);
    lemma_all_resources(a.graph, a, g.edges.len(), g.nodes, repo, ts, files, ts.len());
    assert(same_resources(h, a.graph)) by {
        assert forall|u: Seq<char>| infra::of_infra(u) implies #[trigger] a.graph.has(u) == h.has(u) by {}
    }
    lemma_all_counted(h, a, g.edges.len(), g.nodes, repo, ts, files, ts.len(), tally);
}

// ----------------------------------------------------------------------------------------------
// Directories
// ----------------------------------------------------------------------------------------------

proof fn lemma_trimmed_end_char(s: Seq<char>, c: char)
    ensures
        ({
            let r = text::trimmed_end_char(s, c);
            &&& r.len() <= s.len()
            &&& s.take(r.len() as int) == r
            &&& forall|i: int| r.len() <= i < s.len() ==> s[i] == c
            &&& r.len() > 0 ==> r.last() != c
        }),
    decreases s.len(),
{
    if s.len() > 0 && s.last() == c {
        lemma_trimmed_end_char(s.drop_last(), c);
        let r = text::trimmed_end_char(s, c);
        assert(s.take(r.len() as int) =~= s.drop_last().take(r.len() as int));
        assert forall|i: int| r.len() <= i < s.len() implies s[i] == c by {
            if i < s.len() - 1 {
                assert(s[i] == s.drop_last()[i]);
            }
        }
    } else {
        assert(s.take(s.len() as int) =~= s);
    }
}

/// A path without a leading `./`.
pub open spec fn without_here(t: Seq<char>) -> Seq<char> {
    if t.len() >= 2 && t[0] == '.' && t[1] == '/' {
        t.skip(2)
    } else {
        t
    }
}

/// Whether `s` holds nothing but slashes from `from` on.
pub open spec fn slashes_from(s: Seq<char>, from: int) -> bool {
    forall|i: int| from <= i < s.len() ==> #[trigger] s[i] == '/'
}

/// A code directory is cleaned of white space, of a leading `./` and of trailing slashes: with those put
/// back it is what stood there. The current directory is the empty one.
pub proof fn law_clean_dir(code_uri: Seq<char>)
    ensures
        ({
            let r = infra::clean_dir(code_uri);
            let u = without_here(text::trimmed(code_uri));
            &&& r.len() > 0 ==> r.last() != '/' && r != seq!['.'] && r.len() <= u.len() && u.take(r.len() as int) == r
                && slashes_from(u, r.len() as int)
            &&& r.len() == 0 <==> slashes_from(u, 0) || (u.len() > 0 && u[0] == '.' && slashes_from(u, 1))
        }),
{
    reveal_strlit("./");
    reveal_strlit(".");
    assert("."@ =~= seq!['.']);
    let t = text::trimmed(code_uri);
    assert(text::begins(t, "./"@) == (t.len() >= 2 && t[0] == '.' && t[1] == '/')) by {
        if t.len() >= 2 && t[0] == '.' && t[1] == '/' {
            assert(t.take(2) =~= "./"@);
        }
        if text::begins(t, "./"@) {
            assert(t.take(2)[0] == '.' && t.take(2)[1] == '/');
        }
    }
    let u = without_here(t);
    lemma_trimmed_end_char(u, '/');
    let v = text::trimmed_end_char(u, '/');
    let r = infra::clean_dir(code_uri);
    assert(slashes_from(u, v.len() as int));
    if v.len() == 0 {
        assert(r.len() == 0);
    } else {
        assert(u.take(v.len() as int)[v.len() - 1] == v.last());
        assert(u[v.len() - 1] == v.last());
        assert(!slashes_from(u, 0));
        assert(u.take(v.len() as int)[0] == v[0]);
        assert(u[0] == v[0]);
        if v == "."@ {
            assert(v.len() == 1);
            assert(r.len() == 0);
            assert(slashes_from(u, 1));
        } else {
            assert(r == v);
            if u[0] == '.' && slashes_from(u, 1) {
                if v.len() > 1 {
                    assert(u[v.len() - 1] == '/');
                }
                assert(v =~= seq!['.']);
            }
        }
    }
}

// ----------------------------------------------------------------------------------------------
// Terragrunt
// ----------------------------------------------------------------------------------------------

/// Whether `dir` is the directory of a unit: a dot where its path names none.
pub open spec fn is_unit_dir(path: Seq<char>, dir: Seq<char>) -> bool {
    ||| !path.contains('/') && dir == seq!['.']
    ||| exists|file: Seq<char>| path == #[trigger] (dir + seq!['/'] + file) && !file.contains('/')
}

proof fn lemma_unit_dir(path: Seq<char>)
    ensures
        forall|dir: Seq<char>| #[trigger] is_unit_dir(path, dir) == (dir == infra::dir_of(path)),
{
    reveal_strlit(".");
    assert("."@ =~= seq!['.']);
    text::lemma_last_position(path, '/');
    assert forall|dir: Seq<char>| #[trigger] is_unit_dir(path, dir) == (dir == infra::dir_of(path)) by {
        if dir == infra::dir_of(path) {
            if let Some(i) = text::last_position(path, '/') {
                let file = path.skip(i + 1);
                assert(path =~= dir + seq!['/'] + file);
                if file.contains('/') {
                    let k = choose|k: int| 0 <= k < file.len() && file[k] == '/';
                    assert(path[i + 1 + k] == '/');
                }
            }
        }
        if is_unit_dir(path, dir) {
            if exists|file: Seq<char>| path == #[trigger] (dir + seq!['/'] + file) && !file.contains('/') {
                let file = choose|file: Seq<char>| path == #[trigger] (dir + seq!['/'] + file) && !file.contains('/');
                lemma_cut_at(path, dir, file, '/');
            }
        }
    }
}

/// The steps of a relative path: a name goes into a directory, two dots go back out, a dot and nothing
/// stay, and none is above the root.
pub proof fn law_relative_steps(base: Seq<Seq<char>>, parts: Seq<Seq<char>>, step: Seq<char>)
    ensures
        ({
            let at = infra::rel_steps(base, parts, parts.len());
            let next = infra::rel_steps(base, parts.push(step), parts.len() + 1);
            let up = seq!['.', '.'];
            &&& at is None ==> next is None
            &&& at matches Some(dirs) ==> {
                &&& step.len() == 0 || step == seq!['.'] ==> next == at
                &&& step == up && dirs.len() == 0 ==> next is None
                &&& step == up && dirs.len() > 0 ==> next == Some(dirs.drop_last())
                &&& step.len() > 0 && step != seq!['.'] && step != up ==> next == Some(dirs.push(step))
            }
        }),
{
    reveal_strlit(".");
    reveal_strlit("..");
    assert("."@ =~= seq!['.']);
    assert(".."@ =~= seq!['.', '.']);
    lemma_steps_prefix(base, parts, parts.push(step), parts.len());
    assert(step.len() == 0 ==> step =~= Seq::empty());
}

proof fn lemma_steps_prefix(base: Seq<Seq<char>>, a: Seq<Seq<char>>, b: Seq<Seq<char>>, n: nat)
    requires
        n <= a.len() <= b.len(),
        forall|i: int| 0 <= i < a.len() ==> #[trigger] a[i] == b[i],
    ensures
        infra::rel_steps(base, a, n) == infra::rel_steps(base, b, n),
    decreases n,
{
    if n > 0 {
        lemma_steps_prefix(base, a, b, (n - 1) as nat);
    }
}

/// Whether unit `i` is the last one in a directory.
pub open spec fn unit_at(units: Seq<infra::TerragruntUnit>, dir: Seq<char>, i: int) -> bool {
    &&& 0 <= i < units.len()
    &&& is_unit_dir(units[i].path@, dir)
    &&& forall|k: int| i < k < units.len() ==> !is_unit_dir((#[trigger] units[k]).path@, dir)
}

proof fn lemma_unit_in(units: Seq<infra::TerragruntUnit>, dir: Seq<char>, n: nat)
    requires
        n <= units.len(),
    ensures
        match infra::unit_in(units, dir, n) {
            Some(p) => exists|i: int|
                0 <= i < n && is_unit_dir((#[trigger] units[i]).path@, dir) && units[i].path@ == p && forall|k: int|
                    i < k < n ==> !is_unit_dir((#[trigger] units[k]).path@, dir),
            None => forall|k: int| 0 <= k < n ==> !is_unit_dir((#[trigger] units[k]).path@, dir),
        },
    decreases n,
{
    if n > 0 {
        let last = n - 1;
        lemma_unit_in(units, dir, (n - 1) as nat);
        lemma_unit_dir(units[last].path@);
        assert(is_unit_dir(units[last].path@, dir) == (dir == infra::dir_of(units[last].path@)));
        if infra::unit_in(units, dir, n) is Some && !is_unit_dir(units[last].path@, dir) {
            let p = infra::unit_in(units, dir, n)->0;
            let i = choose|i: int|
                0 <= i < n - 1 && is_unit_dir((#[trigger] units[i]).path@, dir) && units[i].path@ == p && forall|k: int|
                    i < k < n - 1 ==> !is_unit_dir((#[trigger] units[k]).path@, dir);
            assert(units[i].path@ == p);
        }
    }
}

/// The identifier of a unit.
pub open spec fn is_unit_uid(repo: Seq<char>, path: Seq<char>, u: Seq<char>) -> bool {
    exists|dir: Seq<char>| #[trigger] is_unit_dir(path, dir) && u == model::uid_text("infra"@, repo, path, dir, ""@)
}

/// Whether an edge says that a unit depends on another: the last unit of the directory that the
/// dependency names.
pub open spec fn dep_gives(repo: Seq<char>, units: Seq<infra::TerragruntUnit>, a: int, d: int, e: EdgeView) -> bool {
    &&& 0 <= a < units.len()
    &&& 0 <= d < units[a].dependencies@.len()
    &&& e.kind == EdgeKind::Routes && e.provenance == Provenance::Extracted && e.confidence == 950_000_000
    &&& is_unit_uid(repo, units[a].path@, e.src)
    &&& exists|dir: Seq<char>, b: int|
        infra::rel_dir(infra::dir_of(units[a].path@), units[a].dependencies@[d].config_path@) == Some(dir)
            && #[trigger] unit_at(units, dir, b) && units[b].path@ != units[a].path@ && is_unit_uid(
            repo,
            units[b].path@,
            e.dst,
        )
}

proof fn lemma_unit_uid(repo: Seq<char>, path: Seq<char>, u: Seq<char>)
    ensures
        is_unit_uid(repo, path, u) == (u == infra::unit_id(repo, path)),
{
    lemma_unit_dir(path);
    assert(is_unit_dir(path, infra::dir_of(path)));
}

proof fn lemma_dep(repo: Seq<char>, units: Seq<infra::TerragruntUnit>, a: int, d: int, e: EdgeView)
    requires
        0 <= a < units.len(),
        0 <= d < units[a].dependencies@.len(),
    ensures
        dep_gives(repo, units, a, d, e) == (infra::dep_target(units, units[a], units[a].dependencies@[d]) matches Some(p)
            && e == infra::dep_edge(repo, units[a].path@, p)),
{
    let dep = units[a].dependencies@[d];
    lemma_unit_uid(repo, units[a].path@, e.src);
    if let Some(dir) = infra::rel_dir(infra::dir_of(units[a].path@), dep.config_path@) {
        lemma_unit_in(units, dir, units.len());
        match infra::unit_in(units, dir, units.len()) {
            Some(p) => {
                let i = choose|i: int|
                    0 <= i < units.len() && is_unit_dir((#[trigger] units[i]).path@, dir) && units[i].path@ == p
                        && forall|k: int| i < k < units.len() ==> !is_unit_dir((#[trigger] units[k]).path@, dir);
                assert(unit_at(units, dir, i));
                lemma_unit_uid(repo, p, e.dst);
                assert forall|b: int| #[trigger] unit_at(units, dir, b) implies b == i by {
                    if b < i {
                        assert(!is_unit_dir(units[i].path@, dir));
                    }
                    if b > i {
                        assert(!is_unit_dir(units[b].path@, dir));
                    }
                }
            },
            None => {
                assert forall|b: int| !#[trigger] unit_at(units, dir, b) by {}
            },
        }
    }
}

spec fn unit_gives(repo: Seq<char>, units: Seq<infra::TerragruntUnit>, a: int, e: EdgeView) -> bool {
    exists|d: int| #[trigger] dep_gives(repo, units, a, d, e)
}

proof fn lemma_new_edge(g: GraphView, known: nat, x: EdgeView, p: spec_fn(EdgeView) -> bool)
    requires
        forall|e: EdgeView| #[trigger] p(e) == (e == x),
    ensures
        growth::adds(g, g.with_new_edge(known, x), p),
{
    let h = g.with_new_edge(known, x);
    assert forall|e: EdgeView| #[trigger] h.edges.contains(e) == (g.edges.contains(e) || p(e)) by {
        model::lemma_pushed(g.edges, x, e);
        if g.knows(known, x) {
            let i = choose|i: int| 0 <= i < known && i < g.edges.len() && g.edges[i] == x;
            assert(g.edges.contains(g.edges[i]));
        }
    }
}

proof fn lemma_deps(
    s: (GraphView, infra::DepCounts),
    known: nat,
    repo: Seq<char>,
    units: Seq<infra::TerragruntUnit>,
    a: int,
    n: nat,
)
    requires
        0 <= a < units.len(),
        n <= units[a].dependencies@.len(),
    ensures
        growth::adds_upto(
            s.0,
            infra::with_deps(s, known, repo, units, units[a], n).0,
            |d: int, e: EdgeView| dep_gives(repo, units, a, d, e),
            n as int,
        ),
        infra::with_deps(s, known, repo, units, units[a], n).1.linked == s.1.linked + order::counted(
            |d: int| exists|e: EdgeView| #[trigger] dep_gives(repo, units, a, d, e),
            n,
        ),
    decreases n,
{
    let gives = |d: int, e: EdgeView| dep_gives(repo, units, a, d, e);
    if n > 0 {
        let m = (n - 1) as nat;
        let last = n - 1;
        lemma_deps(s, known, repo, units, a, m);
        let b = infra::with_deps(s, known, repo, units, units[a], m);
        let h = infra::with_deps(s, known, repo, units, units[a], n);
        let p = |e: EdgeView| dep_gives(repo, units, a, last, e);
        let target = infra::dep_target(units, units[a], units[a].dependencies@[last]);
        assert forall|e: EdgeView| #[trigger] dep_gives(repo, units, a, last, e) == (target matches Some(t) && e
            == infra::dep_edge(repo, units[a].path@, t)) by {
            lemma_dep(repo, units, a, last, e);
        }
        match target {
            Some(t) => {
                let x = infra::dep_edge(repo, units[a].path@, t);
                assert(dep_gives(repo, units, a, last, x));
                lemma_new_edge(b.0, known, x, p);
            },
            None => {
                assert(growth::adds(b.0, h.0, p));
            },
        }
        growth::lemma_adds_next(s.0, b.0, h.0, gives, p, last);
    } else {
        growth::lemma_adds_none(s.0, gives);
    }
}

proof fn lemma_all_deps(
    s: (GraphView, infra::DepCounts),
    known: nat,
    repo: Seq<char>,
    units: Seq<infra::TerragruntUnit>,
    n: nat,
)
    requires
        n <= units.len(),
    ensures
        growth::adds_upto(
            s.0,
            infra::with_all_deps(s, known, repo, units, n).0,
            |a: int, e: EdgeView| unit_gives(repo, units, a, e),
            n as int,
        ),
    decreases n,
{
    let gives = |a: int, e: EdgeView| unit_gives(repo, units, a, e);
    if n > 0 {
        let m = (n - 1) as nat;
        let last = n - 1;
        lemma_all_deps(s, known, repo, units, m);
        let b = infra::with_all_deps(s, known, repo, units, m);
        let h = infra::with_all_deps(s, known, repo, units, n);
        let size = units[last].dependencies@.len();
        lemma_deps(b, known, repo, units, last, size);
        let ds = |d: int, e: EdgeView| dep_gives(repo, units, last, d, e);
        let p = |e: EdgeView| unit_gives(repo, units, last, e);
        assert forall|e: EdgeView| #[trigger] h.0.edges.contains(e) == (b.0.edges.contains(e) || p(e)) by {
            if p(e) {
                let d = choose|d: int| #[trigger] dep_gives(repo, units, last, d, e);
                assert(ds(d, e));
            }
        }
        growth::lemma_adds_next(s.0, b.0, h.0, gives, p, last);
    } else {
        growth::lemma_adds_none(s.0, gives);
    }
}

/// Whether a node is that of a unit.
pub open spec fn is_unit_node(repo: Seq<char>, unit: infra::TerragruntUnit, x: NodeView) -> bool {
    &&& x.kind == NodeKind::CloudResource
    &&& is_unit_dir(unit.path@, x.name)
    &&& x.uid == model::uid_text("infra"@, repo, unit.path@, x.name, ""@)
    &&& x.fqn == x.name && x.path == unit.path@
    &&& x.provenance == Provenance::Extracted && x.confidence == 1_000_000_000
    &&& x.span == (Span { start_line: 0, start_col: 0, end_line: 0, end_col: 0 })
}

proof fn lemma_units(g: GraphView, repo: Seq<char>, units: Seq<infra::TerragruntUnit>, n: nat)
    requires
        n <= units.len(),
    ensures
        growth::nodes_from(
            g,
            infra::with_units(g, repo, units, n),
            |x: NodeView| exists|i: int| 0 <= i < n && is_unit_node(repo, #[trigger] units[i], x),
        ),
    decreases n,
{
    let r = |x: NodeView| exists|i: int| 0 <= i < n && is_unit_node(repo, #[trigger] units[i], x);
    if n > 0 {
        let m = (n - 1) as nat;
        let last = n - 1;
        lemma_units(g, repo, units, m);
        let b = infra::with_units(g, repo, units, m);
        let h = infra::with_units(g, repo, units, n);
        let node = infra::unit_node(repo, units[last].path@);
        lemma_unit_dir(units[last].path@);
        let p = |x: NodeView| exists|i: int| 0 <= i < m && is_unit_node(repo, #[trigger] units[i], x);
        let q = |x: NodeView| x == node;
        growth::lemma_nodes_one(b, node, q);
        assert forall|x: NodeView| #[trigger] r(x) == (p(x) || q(x)) by {
            assert(is_unit_node(repo, units[last], x) == q(x)) by {
                assert(is_unit_dir(units[last].path@, x.name) == (x.name == infra::dir_of(units[last].path@)));
            }
            if r(x) {
                let i = choose|i: int| 0 <= i < n && is_unit_node(repo, #[trigger] units[i], x);
                assert(i < m || i == last);
            }
            if p(x) {
                let i = choose|i: int| 0 <= i < m && is_unit_node(repo, #[trigger] units[i], x);
                assert(units[i] == units[i]);
            }
        }
        growth::lemma_nodes_more(g, b, h, p, q, r);
    } else {
        growth::lemma_nodes_none(g, r);
    }
}

/// The Terragrunt plane: every unit is a node, and an edge is one of it exactly if the graph had it or a
/// dependency of a unit gives it.
pub proof fn law_terragrunt_edges(g: GraphView, repo: Seq<char>, units: Seq<infra::TerragruntUnit>)
    ensures
        ({
            let h = infra::terragrunt_plane(g, repo, units).0;
            &&& forall|e: EdgeView| #[trigger]
                h.edges.contains(e) == (g.edges.contains(e) || exists|a: int, d: int| #[trigger]
                    dep_gives(repo, units, a, d, e))
            &&& forall|i: int, x: NodeView|
                0 <= i < units.len() && #[trigger] is_unit_node(repo, units[i], x) ==> h.has(x.uid)
            &&& forall|x: NodeView| #[trigger]
                h.nodes.contains(x) ==> g.nodes.contains(x) || exists|i: int|
                    0 <= i < units.len() && is_unit_node(repo, #[trigger] units[i], x)
        }),
{
    let h = infra::terragrunt_plane(g, repo, units).0;
    let b = infra::with_units(g, repo, units, units.len());
    lemma_units(g, repo, units, units.len());
    lemma_all_deps((b, infra::DepCounts::zero()), g.edges.len(), repo, units, units.len());
    let gives = |a: int, e: EdgeView| unit_gives(repo, units, a, e);
    assert forall|e: EdgeView| #[trigger] h.edges.contains(e) == (g.edges.contains(e) || exists|a: int, d: int| #[trigger]
        dep_gives(repo, units, a, d, e)) by {
        assert(h.edges.contains(e) == (b.edges.contains(e) || growth::given(gives, units.len() as int, e)));
        if growth::given(gives, units.len() as int, e) {
            let a = choose|a: int| 0 <= a < units.len() && #[trigger] gives(a, e);
            let d = choose|d: int| #[trigger] dep_gives(repo, units, a, d, e);
            assert(dep_gives(repo, units, a, d, e));
        }
        if exists|a: int, d: int| #[trigger] dep_gives(repo, units, a, d, e) {
            let (a, d) = choose|a: int, d: int| #[trigger] dep_gives(repo, units, a, d, e);
            assert(gives(a, e));
        }
    }
    let r = |x: NodeView| exists|i: int| 0 <= i < units.len() && is_unit_node(repo, #[trigger] units[i], x);
    assert(forall|u: Seq<char>| #[trigger] h.has(u) == b.has(u));
    assert forall|i: int, x: NodeView| 0 <= i < units.len() && #[trigger] is_unit_node(repo, units[i], x) implies h.has(
        x.uid,
    ) by {
        assert(r(x));
    }
}

} // verus!
