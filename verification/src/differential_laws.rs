//! What a comparison of names with an index says of each call, told by the files and the graph.
use vstd::prelude::*;

use crate::analysis::{CallRef, FileEntry};
use crate::code_laws;
use crate::code_plane;
use crate::code_plane::{CallableView, ScipSide};
use crate::differential;
use crate::differential::OutcomeView;
use crate::model;
use crate::model::{Direction, EdgeKind, EdgeView, GraphView, NodeView, Provenance};
use crate::order;

verus! {

// ----------------------------------------------------------------------------------------------
// One outcome for each call
// ----------------------------------------------------------------------------------------------

/// How many calls the first `n` files have.
pub open spec fn calls_before(files: Seq<FileEntry>, n: nat) -> nat
    decreases n,
{
    if n == 0 {
        0
    } else {
        calls_before(files, (n - 1) as nat) + files[n - 1].file.calls@.len()
    }
}

proof fn lemma_calls_before(files: Seq<FileEntry>, f: nat, n: nat)
    requires
        f < n <= files.len(),
    ensures
        calls_before(files, f) + files[f as int].file.calls@.len() <= calls_before(files, n),
    decreases n,
{
    if f < n - 1 {
        lemma_calls_before(files, f, (n - 1) as nat);
    }
}

/// Whether two outcomes are the same.
pub open spec fn is_same(a: OutcomeView, b: OutcomeView) -> bool {
    a == b
}

proof fn lemma_outcomes(
    repo: Seq<char>,
    files: Seq<FileEntry>,
    index: Seq<CallableView>,
    side: Option<ScipSide>,
    n: nat,
    f: int,
    c: int,
)
    requires
        n <= files.len(),
    ensures
        differential::outcomes_upto(repo, files, index, side, n).len() == calls_before(files, n),
        0 <= f < n && 0 <= c < files[f].file.calls@.len() ==> is_same(
            differential::outcomes_upto(repo, files, index, side, n)[calls_before(files, f as nat) + c],
            differential::call_outcome(repo, files[f], files[f].file.calls@[c], index, side),
        ),
    decreases n,
{
    if n > 0 {
        let m = (n - 1) as nat;
        lemma_outcomes(repo, files, index, side, m, f, c);
        let rest = differential::outcomes_upto(repo, files, index, side, m);
        let last = differential::outcomes_in(repo, files[m as int], index, side, files[m as int].file.calls@.len());
        let at = calls_before(files, f as nat) + c;
        if 0 <= f < m && 0 <= c < files[f].file.calls@.len() {
            lemma_calls_before(files, f as nat, m);
            assert(is_same((rest + last)[at], rest[at]));
        } else if f == m && 0 <= c < files[f].file.calls@.len() {
            assert(is_same((rest + last)[at], last[c]));
        }
    }
}

/// Whether an outcome is that of a call: its targets are what the call can reach by names, each once;
/// its precise target is that of the index, unless it is the caller; and it is told how sure the names
/// are.
pub open spec fn tells_call(
    repo: Seq<char>,
    files: Seq<FileEntry>,
    side: Option<ScipSide>,
    f: int,
    c: int,
    o: OutcomeView,
) -> bool {
    let call = files[f].file.calls@[c];
    let caller = model::uid_text(
        "ts"@,
        repo,
        files[f].path@,
        if call.enclosing_fqn@.len() == 0 {
            "<module>"@
        } else {
            call.enclosing_fqn@
        },
        ""@,
    );
    let precise = code_plane::precise_target(side, files[f].path@, call);
    &&& o.file == files[f].path@
    &&& o.targets.no_duplicates()
    &&& forall|k: int, j: int| #[trigger]
        code_laws::can_reach(files, f, call, k, j) ==> o.targets.contains(code_laws::uid_at(repo, files, k, j))
    &&& forall|i: int|
        0 <= i < o.targets.len() ==> code_laws::is_reached(repo, files, f, call, #[trigger] o.targets[i])
    &&& o.scip == (if precise is Some && precise->0.uid() != caller {
        Some(precise->0.uid())
    } else {
        None
    })
}

proof fn lemma_tells(repo: Seq<char>, files: Seq<FileEntry>, side: Option<ScipSide>, f: int, c: int)
    requires
        0 <= f < files.len(),
        0 <= c < files[f].file.calls@.len(),
    ensures
        tells_call(
            repo,
            files,
            side,
            f,
            c,
            differential::call_outcome(
                repo,
                files[f],
                files[f].file.calls@[c],
                code_plane::call_index(repo, files, files.len()),
                side,
            ),
        ),
{
    code_laws::law_candidates(repo, files, f, files[f].file.calls@[c]);
}

/// Every call of every file has one outcome, in the order of the files and of their calls, and there are
/// no others.
pub proof fn law_outcomes(repo: Seq<char>, files: Seq<FileEntry>, side: Option<ScipSide>, f: int, c: int)
    requires
        0 <= f < files.len(),
        0 <= c < files[f].file.calls@.len(),
    ensures
        ({
            let index = code_plane::call_index(repo, files, files.len());
            let all = differential::outcomes_upto(repo, files, index, side, files.len());
            &&& all.len() == calls_before(files, files.len())
            &&& calls_before(files, f as nat) + c < all.len()
            &&& tells_call(repo, files, side, f, c, all[calls_before(files, f as nat) + c])
        }),
{
    let index = code_plane::call_index(repo, files, files.len());
    lemma_outcomes(repo, files, index, side, files.len(), f, c);
    lemma_calls_before(files, f as nat, files.len());
    lemma_tells(repo, files, side, f, c);
}

// ----------------------------------------------------------------------------------------------
// Targets read off a graph
// ----------------------------------------------------------------------------------------------

/// Whether a graph has a call from a node to a node with a name.
pub open spec fn calls_named(g: GraphView, caller: Seq<char>, name: Seq<char>, u: Seq<char>) -> bool {
    &&& g.node(u) is Some
    &&& g.node(u)->0.name == name
    &&& exists|e: EdgeView| #[trigger] g.edges.contains(e) && e.kind == EdgeKind::Calls && e.src == caller && e.dst == u
}

proof fn lemma_named(neighbors: Seq<(EdgeView, NodeView)>, name: Seq<char>, n: nat, u: Seq<char>)
    requires
        n <= neighbors.len(),
    ensures
        differential::named_targets(neighbors, name, n).contains(u) <==> exists|i: int|
            0 <= i < n && (#[trigger] neighbors[i]).1.name == name && neighbors[i].0.dst == u,
    decreases n,
{
    if n > 0 {
        let m = (n - 1) as nat;
        lemma_named(neighbors, name, m, u);
        model::lemma_pushed(differential::named_targets(neighbors, name, m), neighbors[m as int].0.dst, u);
    }
}

proof fn lemma_unnamed(neighbors: Seq<(EdgeView, NodeView)>, name: Seq<char>, n: nat)
    requires
        n <= neighbors.len(),
        differential::named_targets(neighbors, name, n).len() == 0,
    ensures
        differential::named_provenance(neighbors, name, n) is None,
    decreases n,
{
    if n > 0 {
        lemma_unnamed(neighbors, name, (n - 1) as nat);
    }
}

proof fn lemma_graph_targets(g: GraphView, caller: Seq<char>, name: Seq<char>, u: Seq<char>)
    ensures
        ({
            let neighbors = model::neighbors_upto(g, caller, Direction::Outgoing, seq![EdgeKind::Calls], g.edges.len());
            differential::named_targets(neighbors, name, neighbors.len()).contains(u) <==> calls_named(g, caller, name, u)
        }),
{
    let kinds = seq![EdgeKind::Calls];
    let neighbors = model::neighbors_upto(g, caller, Direction::Outgoing, kinds, g.edges.len());
    lemma_named(neighbors, name, neighbors.len(), u);
    assert(kinds[0] == EdgeKind::Calls);
    assert(kinds.contains(EdgeKind::Calls));
    if exists|i: int| 0 <= i < neighbors.len() && (#[trigger] neighbors[i]).1.name == name && neighbors[i].0.dst == u {
        let i = choose|i: int|
            0 <= i < neighbors.len() && (#[trigger] neighbors[i]).1.name == name && neighbors[i].0.dst == u;
        let e = neighbors[i].0;
        let x = neighbors[i].1;
        assert(neighbors.contains(neighbors[i]));
        assert(neighbors[i] == (e, x));
        model::law_neighbors(g, caller, Direction::Outgoing, kinds, e, x);
        assert(g.edges.contains(e));
    }
    if calls_named(g, caller, name, u) {
        let e = choose|e: EdgeView| #[trigger]
            g.edges.contains(e) && e.kind == EdgeKind::Calls && e.src == caller && e.dst == u;
        let x = g.node(u)->0;
        model::law_neighbors(g, caller, Direction::Outgoing, kinds, e, x);
        let i = choose|i: int| 0 <= i < neighbors.len() && neighbors[i] == (e, x);
        assert(neighbors[i].1.name == name);
    }
}

/// How a call of another language comes out: its targets are the nodes of its name that the graph has it
/// call, in order and each once; its precise target is a node of the repository that is not the caller;
/// and where the graph has no target, it is told by its receiver how it would be known.
pub proof fn law_graph_outcome(
    g: GraphView,
    lang: Seq<char>,
    repo: Seq<char>,
    f: FileEntry,
    call: CallRef,
    side: Option<ScipSide>,
)
    ensures
        ({
            let o = differential::graph_outcome(g, lang, repo, f, call, side);
            let caller = model::uid_text(
                lang,
                repo,
                f.path@,
                if call.enclosing_fqn@.len() == 0 {
                    "<module>"@
                } else {
                    call.enclosing_fqn@
                },
                ""@,
            );
            let precise = code_plane::precise_target(side, f.path@, call);
            &&& o.file == f.path@
            &&& order::ascending(o.targets)
            &&& forall|u: Seq<char>| #[trigger]
                o.targets.contains(u) <==> calls_named(g, caller, call.callee_name@, u)
            &&& o.scip == (if precise is Some && precise->0 is Node && precise->0.uid() != caller {
                Some(precise->0.uid())
            } else {
                None
            })
            &&& o.targets.len() == 0 ==> o.provenance == differential::attempted(call)
        }),
{
    let caller = differential::enclosing_in(lang, repo, f.path@, call.enclosing_fqn@);
    let neighbors = model::neighbors_upto(g, caller, Direction::Outgoing, seq![EdgeKind::Calls], g.edges.len());
    let named = differential::named_targets(neighbors, call.callee_name@, neighbors.len());
    let sorted = order::lemma_listed(named.len(), |i: int| true, |i: int| named[i]);
    assert forall|x: Seq<char>|
        #![trigger sorted.contains(x)]
        #![trigger named.contains(x)]
        sorted.contains(x) == named.contains(x) by {
        let hit = |i: int| true;
        let item = |i: int| named[i];
        if named.contains(x) {
            let i = choose|i: int| 0 <= i < named.len() && named[i] == x;
            assert(hit(i) && item(i) == x);
        }
    }
    order::lemma_sorted_set(named, sorted);
    assert forall|u: Seq<char>| #[trigger] sorted.contains(u) <==> calls_named(g, caller, call.callee_name@, u) by {
        assert(sorted.contains(u) == named.contains(u));
        lemma_graph_targets(g, caller, call.callee_name@, u);
    }
    if sorted.len() == 0 {
        assert(named.len() == 0) by {
            if named.len() > 0 {
                assert(named.contains(named[0]));
                assert(sorted.contains(named[0]));
            }
        }
        lemma_unnamed(neighbors, call.callee_name@, neighbors.len());
    }
}

// ----------------------------------------------------------------------------------------------
// Receivers
// ----------------------------------------------------------------------------------------------

/// Whether a pair of colons stands in a text, at or after `from` and before `to`.
pub open spec fn has_pair(s: Seq<char>, from: int, to: int) -> bool {
    exists|k: int| from <= k && k + 1 < to && (#[trigger] s[k]) == ':' && s[k + 1] == ':'
}

proof fn lemma_last_colons(s: Seq<char>, n: nat)
    requires
        n <= s.len(),
    ensures
        match differential::last_colons(s, n) {
            Some(i) => 0 <= i && i + 2 <= n && s[i] == ':' && s[i + 1] == ':' && !has_pair(s, i + 1, n as int),
            None => !has_pair(s, 0, n as int),
        },
    decreases n,
{
    if n >= 2 && !(s[n - 2] == ':' && s[n - 1] == ':') {
        lemma_last_colons(s, (n - 1) as nat);
    }
}

/// The last segment of a path is what follows its last pair of colons, or all of it where there is none.
pub proof fn law_last_segment(s: Seq<char>)
    ensures
        ({
            let r = differential::last_segment(s);
            let i = s.len() - r.len();
            &&& 0 <= i
            &&& r == s.skip(i)
            &&& i == 0 ==> !has_pair(s, 0, s.len() as int)
            &&& i > 0 ==> i >= 2 && s[i - 2] == ':' && s[i - 1] == ':' && !has_pair(s, i - 1, s.len() as int)
        }),
{
    lemma_last_colons(s, s.len());
    assert(s.skip(0) =~= s);
}

/// A call is taken to be sure on no receiver, on `self`, on `&self` and on a path that ends in `Self`,
/// and ambiguous on any other.
pub proof fn law_attempted(call: CallRef)
    ensures
        differential::attempted(call) == Provenance::Inferred || differential::attempted(call) == Provenance::Ambiguous,
        differential::attempted(call) == Provenance::Inferred <==> match call.receiver {
            None => true,
            Some(r) => r@ == "self"@ || r@ == "&self"@ || (call.receiver_is_path && differential::last_segment(r@)
                == "Self"@),
        },
{
}
proof fn lemma_provenance_prefix(a: Seq<(EdgeView, NodeView)>, b: Seq<(EdgeView, NodeView)>, name: Seq<char>, n: nat)
    requires
        n <= a.len(),
        n <= b.len(),
        a.take(n as int) == b.take(n as int),
    ensures
        differential::named_provenance(a, name, n) == differential::named_provenance(b, name, n),
    decreases n,
{
    if n > 0 {
        let m = n - 1;
        assert(a.take(m) =~= a.take(n as int).take(m));
        assert(b.take(m) =~= b.take(n as int).take(m));
        assert(a[m] == a.take(n as int)[m]);
        assert(b[m] == b.take(n as int)[m]);
        lemma_provenance_prefix(a, b, name, m as nat);
    }
}

/// How the targets with a name are known is told by the last of them.
pub proof fn law_named_provenance(neighbors: Seq<(EdgeView, NodeView)>, name: Seq<char>, e: EdgeView, x: NodeView)
    ensures
        differential::named_provenance(neighbors.push((e, x)), name, neighbors.len() + 1) == if x.name == name {
            Some(e.provenance)
        } else {
            differential::named_provenance(neighbors, name, neighbors.len())
        },
        differential::named_provenance(neighbors, name, 0) is None,
{
    let more = neighbors.push((e, x));
    assert(more.take(neighbors.len() as int) =~= neighbors.take(neighbors.len() as int));
    lemma_provenance_prefix(more, neighbors, name, neighbors.len());
}
proof fn lemma_graph_outcomes(
    g: GraphView,
    lang: Seq<char>,
    repo: Seq<char>,
    files: Seq<FileEntry>,
    side: Option<ScipSide>,
    n: nat,
    f: int,
    c: int,
)
    requires
        n <= files.len(),
    ensures
        differential::graph_outcomes_upto(g, lang, repo, files, side, n).len() == calls_before(files, n),
        0 <= f < n && 0 <= c < files[f].file.calls@.len() ==> is_same(
            differential::graph_outcomes_upto(g, lang, repo, files, side, n)[calls_before(files, f as nat) + c],
            differential::graph_outcome(g, lang, repo, files[f], files[f].file.calls@[c], side),
        ),
    decreases n,
{
    if n > 0 {
        let m = (n - 1) as nat;
        lemma_graph_outcomes(g, lang, repo, files, side, m, f, c);
        let rest = differential::graph_outcomes_upto(g, lang, repo, files, side, m);
        let last = differential::graph_outcomes_in(
            g,
            lang,
            repo,
            files[m as int],
            side,
            files[m as int].file.calls@.len(),
        );
        let at = calls_before(files, f as nat) + c;
        if 0 <= f < m && 0 <= c < files[f].file.calls@.len() {
            lemma_calls_before(files, f as nat, m);
            assert(is_same((rest + last)[at], rest[at]));
        } else if f == m && 0 <= c < files[f].file.calls@.len() {
            assert(is_same((rest + last)[at], last[c]));
        }
    }
}

/// Of the files of another language too, every call has one outcome, in the order of the files and of
/// their calls, and there are no others.
pub proof fn law_graph_outcomes(
    g: GraphView,
    lang: Seq<char>,
    repo: Seq<char>,
    files: Seq<FileEntry>,
    side: Option<ScipSide>,
    f: int,
    c: int,
)
    requires
        0 <= f < files.len(),
        0 <= c < files[f].file.calls@.len(),
    ensures
        ({
            let all = differential::graph_outcomes_upto(g, lang, repo, files, side, files.len());
            &&& all.len() == calls_before(files, files.len())
            &&& calls_before(files, f as nat) + c < all.len()
            &&& is_same(
                all[calls_before(files, f as nat) + c],
                differential::graph_outcome(g, lang, repo, files[f], files[f].file.calls@[c], side),
            )
        }),
{
    lemma_graph_outcomes(g, lang, repo, files, side, files.len(), f, c);
    lemma_calls_before(files, f as nat, files.len());
}

} // verus!
