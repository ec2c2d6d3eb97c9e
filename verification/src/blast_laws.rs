//! What a change affects, told by its symbols, the nodes of the graph and what depends on them.
use vstd::prelude::*;

use crate::blast;
use crate::blast::{AffectedView, Best, HitView, ImpactEntry, RiskLevel};
use crate::changes::{ChangeKind, ContractChange, SymbolView};
use crate::model;
use crate::model::{GraphView, NodeKind, NodeView};
use crate::order;
use crate::ordmap;
use crate::text;

verus! {

// ----------------------------------------------------------------------------------------------
// Packages and paths
// ----------------------------------------------------------------------------------------------

/// Whether an identifier is `head|pkg`, or `head|pkg|` and more.
pub open spec fn splits_as(uid: Seq<char>, head: Seq<char>, pkg: Seq<char>, tail: Seq<char>) -> bool {
    &&& uid == head + seq!['|'] + pkg + tail
    &&& !head.contains('|')
    &&& !pkg.contains('|')
    &&& tail.len() > 0 ==> tail[0] == '|'
}

/// Whether an identifier is of a package: its second part, which is not empty.
pub open spec fn is_of_package(uid: Seq<char>, pkg: Seq<char>) -> bool {
    pkg.len() > 0 && exists|head: Seq<char>, tail: Seq<char>| #[trigger] splits_as(uid, head, pkg, tail)
}

proof fn lemma_split_second(uid: Seq<char>)
    ensures
        ({
            let parts = text::split_on(uid, '|');
            &&& parts.len() < 2 ==> !uid.contains('|')
            &&& parts.len() >= 2 ==> exists|tail: Seq<char>| #[trigger] splits_as(uid, parts[0], parts[1], tail)
        }),
    decreases uid.len(),
{
    let parts = text::split_on(uid, '|');
    text::lemma_split_pieces(uid, '|');
    if uid.len() > 0 {
        let rest = uid.drop_last();
        let head = text::split_on(rest, '|');
        text::lemma_split_nonempty(rest, '|');
        text::lemma_joined_split(rest, '|');
        lemma_split_second(rest);
        assert(uid =~= rest.push(uid.last()));
        if uid.last() == '|' {
            assert(parts == head.push(Seq::empty()));
            if head.len() == 1 {
                assert(head =~= seq![head[0]]);
                text::lemma_split_whole(rest, '|');
                assert(rest == head[0]);
                assert(uid =~= parts[0] + seq!['|'] + parts[1] + Seq::empty());
                assert(splits_as(uid, parts[0], parts[1], Seq::empty()));
            } else {
                let tail = choose|tail: Seq<char>| #[trigger] splits_as(rest, head[0], head[1], tail);
                assert(parts[0] == head[0] && parts[1] == head[1]);
                assert(uid =~= parts[0] + seq!['|'] + parts[1] + tail.push('|'));
                assert(splits_as(uid, parts[0], parts[1], tail.push('|')));
            }
        } else {
            let last = head.last().push(uid.last());
            assert(parts == head.drop_last().push(last));
            if head.len() == 1 {
                assert(!rest.contains('|'));
                assert forall|i: int| 0 <= i < uid.len() implies uid[i] != '|' by {
                    if i < rest.len() {
                        assert(rest[i] == uid[i]);
                        assert(rest.contains(rest[i]));
                    }
                }
            } else {
                let tail = choose|tail: Seq<char>| #[trigger] splits_as(rest, head[0], head[1], tail);
                if head.len() == 2 {
                    lemma_two_parts(rest, head[0], head[1], tail);
                    assert(uid =~= parts[0] + seq!['|'] + parts[1] + Seq::empty());
                    assert(splits_as(uid, parts[0], parts[1], Seq::empty()));
                } else {
                    lemma_more_parts(rest, head[0], head[1], tail);
                    assert(uid =~= parts[0] + seq!['|'] + parts[1] + tail.push(uid.last()));
                    assert(splits_as(uid, parts[0], parts[1], tail.push(uid.last())));
                }
            }
        }
    } else {
        assert(parts.len() == 1);
    }
}

proof fn lemma_parts(a: Seq<char>, b: Seq<char>, tail: Seq<char>)
    requires
        !a.contains('|'),
        !b.contains('|'),
        tail.len() > 0 ==> tail[0] == '|',
    ensures
        ({
            let parts = text::split_on(a + seq!['|'] + b + tail, '|');
            &&& parts.len() >= 2
            &&& parts[0] == a
            &&& parts[1] == b
            &&& tail.len() == 0 ==> parts.len() == 2
            &&& tail.len() > 0 ==> parts.len() > 2
        }),
    decreases tail.len(),
{
    let s = a + seq!['|'] + b + tail;
    if tail.len() == 0 {
        text::lemma_split_whole(a, '|');
        text::lemma_split_append(a, b, '|');
        assert(s =~= a.push('|') + b);
    } else {
        let t = tail.drop_last();
        lemma_parts(a, b, t);
        let r = a + seq!['|'] + b + t;
        assert(s.drop_last() =~= r);
        assert(s.last() == tail.last());
    }
}

proof fn lemma_two_parts(s: Seq<char>, a: Seq<char>, b: Seq<char>, tail: Seq<char>)
    requires
        splits_as(s, a, b, tail),
        text::split_on(s, '|').len() == 2,
    ensures
        tail.len() == 0,
{
    lemma_parts(a, b, tail);
}

proof fn lemma_more_parts(s: Seq<char>, a: Seq<char>, b: Seq<char>, tail: Seq<char>)
    requires
        splits_as(s, a, b, tail),
        text::split_on(s, '|').len() > 2,
    ensures
        tail.len() > 0,
{
    lemma_parts(a, b, tail);
}

/// The package of an identifier is what stands between its first two bars, or behind its one bar,
/// unless that is empty.
pub proof fn law_package(uid: Seq<char>)
    ensures
        forall|pkg: Seq<char>| (blast::package(uid) == Some(pkg)) == #[trigger] is_of_package(uid, pkg),
{
    let parts = text::split_on(uid, '|');
    lemma_split_second(uid);
    assert forall|pkg: Seq<char>| (blast::package(uid) == Some(pkg)) == #[trigger] is_of_package(uid, pkg) by {
        if blast::package(uid) == Some(pkg) {
            let tail = choose|tail: Seq<char>| #[trigger] splits_as(uid, parts[0], parts[1], tail);
            assert(splits_as(uid, parts[0], pkg, tail));
        }
        if is_of_package(uid, pkg) {
            let (head, tail) = choose|head: Seq<char>, tail: Seq<char>| #[trigger] splits_as(uid, head, pkg, tail);
            lemma_parts(head, pkg, tail);
        }
    }
}

/// Whether `s` is `p` behind something, which may be nothing.
pub open spec fn is_suffix(s: Seq<char>, p: Seq<char>) -> bool {
    exists|head: Seq<char>| s == #[trigger] (head + p)
}

/// Whether `s` is `p` behind a directory.
pub open spec fn is_below(s: Seq<char>, p: Seq<char>) -> bool {
    exists|dir: Seq<char>| s == #[trigger] (dir + seq!['/'] + p)
}

proof fn lemma_ends(s: Seq<char>, p: Seq<char>)
    ensures
        text::ends(s, p) == is_suffix(s, p),
{
    if text::ends(s, p) {
        let head = s.take(s.len() - p.len());
        assert(s =~= head + p);
    }
    if is_suffix(s, p) {
        let head = choose|head: Seq<char>| s == #[trigger] (head + p);
        assert(s.subrange(s.len() - p.len(), s.len() as int) =~= p);
    }
}

/// A node's path is that of a changed file if they are the same or one ends in the other, and a node
/// lies in a file if neither path is empty and they are the same up to leading directories.
pub proof fn law_paths(node_path: Seq<char>, file: Seq<char>)
    ensures
        blast::paths_meet(node_path, file) <==> is_suffix(node_path, file) || is_suffix(file, node_path),
        blast::lies_in(node_path, file) <==> node_path.len() > 0 && file.len() > 0 && (node_path == file || is_below(
            node_path,
            file,
        ) || is_below(file, node_path)),
{
    lemma_ends(node_path, file);
    lemma_ends(file, node_path);
    lemma_below(node_path, file);
    lemma_below(file, node_path);
    if node_path == file {
        assert(node_path =~= Seq::<char>::empty() + file);
    }
}

proof fn lemma_below(s: Seq<char>, p: Seq<char>)
    ensures
        blast::ends_below(s, p) == is_below(s, p),
{
    if blast::ends_below(s, p) {
        let dir = s.take(s.len() - p.len() - 1);
        assert(s =~= dir + seq!['/'] + p);
    }
    if is_below(s, p) {
        let dir = choose|dir: Seq<char>| s == #[trigger] (dir + seq!['/'] + p);
        assert(s.subrange(s.len() - p.len(), s.len() as int) =~= p);
    }
}

// ----------------------------------------------------------------------------------------------
// Roots
// ----------------------------------------------------------------------------------------------

/// Whether a node is one that a changed symbol can mean: its path is that of the file of the symbol,
/// and it is of the repository where one is given.
pub open spec fn could_mean(x: NodeView, sym: SymbolView, repo: Option<Seq<char>>) -> bool {
    &&& is_suffix(x.path, sym.file) || is_suffix(sym.file, x.path)
    &&& repo matches Some(name) ==> is_of_package(x.uid, name)
}

/// Whether a changed symbol names a node: by its qualified name, or by its short name where no node has
/// the qualified name.
pub open spec fn names(g: GraphView, sym: SymbolView, repo: Option<Seq<char>>, u: Seq<char>) -> bool {
    exists|i: int|
        0 <= i < g.nodes.len() && (#[trigger] g.nodes[i]).uid == u && could_mean(g.nodes[i], sym, repo) && (g.nodes[i].fqn
            == sym.key || (g.nodes[i].name == sym.key && forall|k: int|
            0 <= k < g.nodes.len() && could_mean(#[trigger] g.nodes[k], sym, repo) ==> g.nodes[k].fqn != sym.key))
}

proof fn lemma_could_mean(x: NodeView, sym: SymbolView, repo: Option<Seq<char>>)
    ensures
        could_mean(x, sym, repo) == (blast::paths_meet(x.path, sym.file) && blast::of_repo(x.uid, repo)),
{
    law_paths(x.path, sym.file);
    law_package(x.uid);
    if repo is Some {
        assert((blast::package(x.uid) == Some(repo->0)) == is_of_package(x.uid, repo->0));
    }
}

proof fn lemma_named(
    nodes: Seq<NodeView>,
    sym: SymbolView,
    repo: Option<Seq<char>>,
    by_fqn: bool,
    n: nat,
    u: Seq<char>,
)
    requires
        n <= nodes.len(),
    ensures
        blast::named_upto(nodes, sym, repo, by_fqn, n).contains(u) == exists|i: int|
            0 <= i < n && (#[trigger] nodes[i]).uid == u && could_mean(nodes[i], sym, repo) && (if by_fqn {
                nodes[i].fqn
            } else {
                nodes[i].name
            }) == sym.key,
        (blast::named_upto(nodes, sym, repo, by_fqn, n).len() > 0) == exists|i: int|
            0 <= i < n && could_mean(#[trigger] nodes[i], sym, repo) && (if by_fqn {
                nodes[i].fqn
            } else {
                nodes[i].name
            }) == sym.key,
    decreases n,
{
    if n > 0 {
        let last = n - 1;
        lemma_named(nodes, sym, repo, by_fqn, (n - 1) as nat, u);
        lemma_could_mean(nodes[last], sym, repo);
        let rest = blast::named_upto(nodes, sym, repo, by_fqn, (n - 1) as nat);
        model::lemma_pushed(rest, nodes[last].uid, u);
    }
}

proof fn lemma_resolved(g: GraphView, sym: SymbolView, repo: Option<Seq<char>>, u: Seq<char>)
    ensures
        blast::resolved(g, sym, repo).contains(u) == names(g, sym, repo, u),
{
    lemma_named(g.nodes, sym, repo, true, g.nodes.len(), u);
    lemma_named(g.nodes, sym, repo, false, g.nodes.len(), u);
}

/// Whether a node is a root of a change: a symbol that was removed or modified names it.
pub open spec fn is_root(g: GraphView, symbols: Seq<SymbolView>, repo: Option<Seq<char>>, u: Seq<char>) -> bool {
    exists|s: int|
        0 <= s < symbols.len() && ((#[trigger] symbols[s]).change == ChangeKind::Removed || symbols[s].change
            == ChangeKind::Modified) && names(g, symbols[s], repo, u)
}

/// The nodes whose dependents a change affects are all those that a removed or a modified symbol names,
/// and no others: what was just added has no dependents.
pub proof fn law_impact_roots(g: GraphView, symbols: Seq<SymbolView>, repo: Option<Seq<char>>)
    ensures
        forall|u: Seq<char>| #[trigger]
            blast::roots_upto(g, symbols, repo, symbols.len()).contains(u) == is_root(g, symbols, repo, u),
{
    assert forall|u: Seq<char>| #[trigger]
        blast::roots_upto(g, symbols, repo, symbols.len()).contains(u) == is_root(g, symbols, repo, u) by {
        lemma_roots(g, symbols, repo, symbols.len(), u);
    }
}

proof fn lemma_roots(g: GraphView, symbols: Seq<SymbolView>, repo: Option<Seq<char>>, n: nat, u: Seq<char>)
    requires
        n <= symbols.len(),
    ensures
        blast::roots_upto(g, symbols, repo, n).contains(u) == exists|s: int|
            0 <= s < n && ((#[trigger] symbols[s]).change == ChangeKind::Removed || symbols[s].change
                == ChangeKind::Modified) && names(g, symbols[s], repo, u),
    decreases n,
{
    if n > 0 {
        let last = n - 1;
        lemma_roots(g, symbols, repo, (n - 1) as nat, u);
        lemma_resolved(g, symbols[last], repo, u);
        let rest = blast::roots_upto(g, symbols, repo, (n - 1) as nat);
        model::lemma_joined(rest, blast::resolved(g, symbols[last], repo), u);
    }
}

// ----------------------------------------------------------------------------------------------
// What is affected
// ----------------------------------------------------------------------------------------------

/// Whether a hit is one of a node: it stands in the first entry for the node.
pub open spec fn is_hit_of(table: Seq<ImpactEntry>, root: Seq<char>, t: int, j: int, h: HitView) -> bool {
    &&& 0 <= t < table.len()
    &&& table[t].uid@ == root
    &&& forall|k: int| 0 <= k < t ==> (#[trigger] table[k]).uid@ != root
    &&& 0 <= j < table[t].affected@.len()
    &&& table[t].affected@[j]@ == h
}

/// Whether a hit is one of a root of a change.
pub open spec fn is_hit(
    g: GraphView,
    table: Seq<ImpactEntry>,
    symbols: Seq<SymbolView>,
    repo: Option<Seq<char>>,
    h: HitView,
) -> bool {
    exists|root: Seq<char>, t: int, j: int|
        is_root(g, symbols, repo, root) && #[trigger] is_hit_of(table, root, t, j, h)
}

proof fn lemma_hits_from(table: Seq<ImpactEntry>, root: Seq<char>, from: int, h: HitView)
    requires
        0 <= from,
        forall|k: int| 0 <= k < from && k < table.len() ==> (#[trigger] table[k]).uid@ != root,
    ensures
        blast::hits_from(table, root, from).contains(h) == exists|t: int, j: int| #[trigger]
            is_hit_of(table, root, t, j, h),
    decreases table.len() - from,
{
    if from < table.len() {
        if table[from].uid@ == root {
            let v = blast::hit_views(table[from].affected@);
            if v.contains(h) {
                let j = choose|j: int| 0 <= j < v.len() && v[j] == h;
                assert(is_hit_of(table, root, from, j, h));
            }
            if exists|t: int, j: int| #[trigger] is_hit_of(table, root, t, j, h) {
                let (t, j) = choose|t: int, j: int| #[trigger] is_hit_of(table, root, t, j, h);
                assert(t == from) by {
                    if t > from {
                        assert(table[from].uid@ != root);
                    }
                }
                assert(v[j] == h);
            }
        } else {
            lemma_hits_from(table, root, from + 1, h);
        }
    }
}

proof fn lemma_hits(table: Seq<ImpactEntry>, roots: Seq<Seq<char>>, n: nat, h: HitView)
    requires
        n <= roots.len(),
    ensures
        blast::hits_upto(table, roots, n).contains(h) == exists|i: int, t: int, j: int|
            0 <= i < n && #[trigger] is_hit_of(table, roots[i], t, j, h),
    decreases n,
{
    if n > 0 {
        let last = n - 1;
        lemma_hits(table, roots, (n - 1) as nat, h);
        lemma_hits_from(table, roots[last], 0, h);
        model::lemma_joined(blast::hits_upto(table, roots, (n - 1) as nat), blast::hits_from(table, roots[last], 0), h);
        if exists|i: int, t: int, j: int| 0 <= i < n && #[trigger] is_hit_of(table, roots[i], t, j, h) {
            let (i, t, j) = choose|i: int, t: int, j: int| 0 <= i < n && #[trigger] is_hit_of(table, roots[i], t, j, h);
            assert(i < n - 1 || i == last);
        }
        if exists|t: int, j: int| #[trigger] is_hit_of(table, roots[last], t, j, h) {
            let (t, j) = choose|t: int, j: int| #[trigger] is_hit_of(table, roots[last], t, j, h);
            assert(is_hit_of(table, roots[last], t, j, h));
        }
    }
}

proof fn lemma_all_hits(
    g: GraphView,
    table: Seq<ImpactEntry>,
    symbols: Seq<SymbolView>,
    repo: Option<Seq<char>>,
    h: HitView,
)
    ensures
        ({
            let roots = blast::roots_upto(g, symbols, repo, symbols.len());
            blast::hits_upto(table, roots, roots.len()).contains(h) == is_hit(g, table, symbols, repo, h)
        }),
{
    let roots = blast::roots_upto(g, symbols, repo, symbols.len());
    law_impact_roots(g, symbols, repo);
    lemma_hits(table, roots, roots.len(), h);
    if is_hit(g, table, symbols, repo, h) {
        let (root, t, j) = choose|root: Seq<char>, t: int, j: int|
            is_root(g, symbols, repo, root) && #[trigger] is_hit_of(table, root, t, j, h);
        assert(roots.contains(root));
        let i = choose|i: int| 0 <= i < roots.len() && roots[i] == root;
        assert(is_hit_of(table, roots[i], t, j, h));
    }
    if blast::hits_upto(table, roots, roots.len()).contains(h) {
        let (i, t, j) = choose|i: int, t: int, j: int|
            0 <= i < roots.len() && #[trigger] is_hit_of(table, roots[i], t, j, h);
        assert(roots.contains(roots[i]));
        assert(is_root(g, symbols, repo, roots[i]));
    }
}

/// Whether an entry of a report tells of a node of the graph what its hits say: the least of their
/// depths, the greatest of their confidences, and an ambiguity where one of them is.
pub open spec fn tells(
    g: GraphView,
    table: Seq<ImpactEntry>,
    symbols: Seq<SymbolView>,
    repo: Option<Seq<char>>,
    a: AffectedView,
) -> bool {
    &&& exists|i: int|
        0 <= i < g.nodes.len() && (#[trigger] g.nodes[i]).uid == a.uid && g.nodes[i].name == a.name && g.nodes[i].path
            == a.path && a.kind == blast::name_of_kind(g.nodes[i].kind)
    &&& exists|h: HitView| #[trigger] is_hit(g, table, symbols, repo, h) && h.uid == a.uid && h.depth == a.depth
    &&& exists|h: HitView| #[trigger]
        is_hit(g, table, symbols, repo, h) && h.uid == a.uid && h.confidence == a.confidence
    &&& a.ambiguous <==> exists|h: HitView| #[trigger]
        is_hit(g, table, symbols, repo, h) && h.uid == a.uid && h.ambiguous
    &&& forall|h: HitView| #[trigger]
        is_hit(g, table, symbols, repo, h) && h.uid == a.uid ==> a.depth <= h.depth && h.confidence <= a.confidence
    &&& a.will_break == (400_000_000 <= a.confidence && !a.ambiguous)
}

proof fn lemma_node(g: GraphView, u: Seq<char>, from: int)
    requires
        0 <= from,
        forall|k: int| 0 <= k < from && k < g.nodes.len() ==> (#[trigger] g.nodes[k]).uid != u,
    ensures
        match g.node_from(u, from) {
            Some(x) => g.nodes.contains(x) && x.uid == u,
            None => !g.has(u),
        },
    decreases g.nodes.len() - from,
{
    if from < g.nodes.len() {
        if g.nodes[from].uid != u {
            lemma_node(g, u, from + 1);
        }
    }
}

/// Whether an entry is that of key `k`, over a node of the graph.
spec fn entry_of(g: GraphView, best: Map<Seq<char>, Best>, keys: Seq<Seq<char>>, k: int, a: AffectedView) -> bool {
    &&& 0 <= k < keys.len()
    &&& g.node(keys[k]) matches Some(x) && a == blast::affected_of(x, keys[k], best[keys[k]])
}

proof fn lemma_affected(g: GraphView, best: Map<Seq<char>, Best>, keys: Seq<Seq<char>>, n: nat, a: AffectedView)
    requires
        n <= keys.len(),
    ensures
        blast::affected_upto(g, best, keys, n).contains(a) == exists|k: int|
            k < n && #[trigger] entry_of(g, best, keys, k, a),
    decreases n,
{
    if n > 0 {
        let m = (n - 1) as nat;
        let last = n - 1;
        lemma_affected(g, best, keys, m, a);
        let rest = blast::affected_upto(g, best, keys, m);
        if g.node(keys[last]) is Some {
            let b = blast::affected_of(g.node(keys[last])->0, keys[last], best[keys[last]]);
            model::lemma_pushed(rest, b, a);
            assert(entry_of(g, best, keys, last, b));
        }
        if exists|k: int| k < n && #[trigger] entry_of(g, best, keys, k, a) {
            let k = choose|k: int| k < n && #[trigger] entry_of(g, best, keys, k, a);
            assert(k < m || k == last);
        }
    }
}

proof fn lemma_affected_once(g: GraphView, best: Map<Seq<char>, Best>, keys: Seq<Seq<char>>, n: nat)
    requires
        n <= keys.len(),
        order::ascending(keys),
    ensures
        ({
            let all = blast::affected_upto(g, best, keys, n);
            forall|x: int, y: int| 0 <= x < y < all.len() ==> (#[trigger] all[x]).uid != (#[trigger] all[y]).uid
        }),
    decreases n,
{
    if n > 0 {
        let m = (n - 1) as nat;
        let last = n - 1;
        lemma_affected_once(g, best, keys, m);
        let rest = blast::affected_upto(g, best, keys, m);
        let all = blast::affected_upto(g, best, keys, n);
        if g.node(keys[last]) is Some {
            assert forall|x: int, y: int| 0 <= x < y < all.len() implies (#[trigger] all[x]).uid != (
            #[trigger] all[y]).uid by {
                if y == rest.len() {
                    assert(all[x] == rest[x]);
                    assert(rest.contains(rest[x]));
                    lemma_affected(g, best, keys, m, rest[x]);
                    let k = choose|k: int| k < m && #[trigger] entry_of(g, best, keys, k, rest[x]);
                    assert(order::text_lt(keys[k], keys[last]));
                    order::lemma_text_total(keys[k], keys[last]);
                } else {
                    assert(all[x] == rest[x] && all[y] == rest[y]);
                }
            }
        }
    }
}

proof fn lemma_keys(hits: Seq<HitView>)
    ensures
        ({
            let best = blast::best_upto(hits, hits.len());
            ordmap::lists_keys(best, ordmap::sorted_keys(best))
        }),
{
    let best = blast::best_upto(hits, hits.len());
    blast::law_best(hits, hits.len());
    let hit = |i: int| true;
    let uid = |i: int| hits[i].uid;
    let r = order::lemma_listed(hits.len(), hit, uid);
    assert forall|u: Seq<char>| #[trigger] r.contains(u) == best.dom().contains(u) by {
        assert(r.contains(u) == exists|i: int| 0 <= i < hits.len() && #[trigger] hit(i) && uid(i) == u);
        if best.dom().contains(u) {
            let i = choose|i: int| 0 <= i < hits.len() && (#[trigger] hits[i]).uid == u;
            assert(hit(i) && uid(i) == u);
        }
        if r.contains(u) {
            let i = choose|i: int| 0 <= i < hits.len() && #[trigger] hit(i) && uid(i) == u;
            assert(hits[i].uid == u);
        }
    }
    assert(ordmap::lists_keys(best, r));
}

/// What the hits say of a node.
spec fn summed(hits: Seq<HitView>, u: Seq<char>, b: Best) -> bool {
    &&& exists|h: HitView| #[trigger] hits.contains(h) && h.uid == u && h.depth == b.depth
    &&& exists|h: HitView| #[trigger] hits.contains(h) && h.uid == u && h.confidence == b.confidence
    &&& b.ambiguous ==> exists|h: HitView| #[trigger] hits.contains(h) && h.uid == u && h.ambiguous
    &&& forall|h: HitView| #[trigger]
        hits.contains(h) && h.uid == u ==> b.depth <= h.depth && h.confidence <= b.confidence && (h.ambiguous
            ==> b.ambiguous)
}

proof fn lemma_summed(hits: Seq<HitView>, u: Seq<char>)
    requires
        blast::best_upto(hits, hits.len()).dom().contains(u),
    ensures
        summed(hits, u, blast::best_upto(hits, hits.len())[u]),
{
    blast::law_best(hits, hits.len());
    let b = blast::best_upto(hits, hits.len())[u];
    let d = choose|i: int| 0 <= i < hits.len() && (#[trigger] hits[i]).uid == u && hits[i].depth == b.depth;
    let c = choose|i: int| 0 <= i < hits.len() && (#[trigger] hits[i]).uid == u && hits[i].confidence == b.confidence;
    assert(hits.contains(hits[d]) && hits.contains(hits[c]));
    if b.ambiguous {
        let m = choose|i: int| 0 <= i < hits.len() && (#[trigger] hits[i]).uid == u && hits[i].ambiguous;
        assert(hits.contains(hits[m]));
    }
    assert forall|h: HitView| #[trigger] hits.contains(h) && h.uid == u implies b.depth <= h.depth && h.confidence
        <= b.confidence && (h.ambiguous ==> b.ambiguous) by {
        let j = choose|j: int| 0 <= j < hits.len() && hits[j] == h;
        assert(hits[j].uid == u);
    }
}

proof fn lemma_in_report(
    g: GraphView,
    table: Seq<ImpactEntry>,
    symbols: Seq<SymbolView>,
    repo: Option<Seq<char>>,
    h: HitView,
)
    requires
        is_hit(g, table, symbols, repo, h),
        g.has(h.uid),
    ensures
        exists|a: AffectedView| #[trigger] blast::blast(g, table, symbols, repo).contains(a) && a.uid == h.uid,
{
    let roots = blast::roots_upto(g, symbols, repo, symbols.len());
    let hits = blast::hits_upto(table, roots, roots.len());
    let best = blast::best_upto(hits, hits.len());
    let keys = ordmap::sorted_keys(best);
    let raw = blast::affected_upto(g, best, keys, keys.len());
    lemma_keys(hits);
    lemma_all_hits(g, table, symbols, repo, h);
    order::law_sorting_keeps(raw, blast::affected_keys(raw));
    blast::law_best(hits, hits.len());
    let i = choose|i: int| 0 <= i < hits.len() && hits[i] == h;
    assert(hits[i].uid == h.uid);
    assert(best.dom().contains(h.uid));
    assert(keys.contains(h.uid));
    let k = choose|k: int| 0 <= k < keys.len() && keys[k] == h.uid;
    lemma_node(g, h.uid, 0);
    let x = g.node(h.uid)->0;
    let a = blast::affected_of(x, h.uid, best[h.uid]);
    assert(entry_of(g, best, keys, k, a));
    lemma_affected(g, best, keys, keys.len(), a);
    assert(blast::blast(g, table, symbols, repo).contains(a));
}

proof fn lemma_report_tells(
    g: GraphView,
    table: Seq<ImpactEntry>,
    symbols: Seq<SymbolView>,
    repo: Option<Seq<char>>,
    a: AffectedView,
)
    requires
        blast::blast(g, table, symbols, repo).contains(a),
    ensures
        tells(g, table, symbols, repo, a),
{
    let roots = blast::roots_upto(g, symbols, repo, symbols.len());
    let hits = blast::hits_upto(table, roots, roots.len());
    let best = blast::best_upto(hits, hits.len());
    let keys = ordmap::sorted_keys(best);
    let raw = blast::affected_upto(g, best, keys, keys.len());
    lemma_keys(hits);
    order::law_sorting_keeps(raw, blast::affected_keys(raw));
    assert(raw.contains(a));
    lemma_affected(g, best, keys, keys.len(), a);
    let k = choose|k: int| k < keys.len() && #[trigger] entry_of(g, best, keys, k, a);
    let u = keys[k];
    assert(keys.contains(u));
    lemma_summed(hits, u);
    lemma_node(g, u, 0);
    let x = g.node(u)->0;
    let i = choose|i: int| 0 <= i < g.nodes.len() && g.nodes[i] == x;
    assert(g.nodes[i].uid == a.uid);
    assert forall|h: HitView|
        #![trigger hits.contains(h)]
        #![trigger is_hit(g, table, symbols, repo, h)]
        hits.contains(h) == is_hit(g, table, symbols, repo, h) by {
        lemma_all_hits(g, table, symbols, repo, h);
    }
}

/// What a change affects: every node of the graph that depends on a root of the change is in the report,
/// once, with what its hits say of it; nothing else is; and the surest stand first.
pub proof fn law_blast(g: GraphView, table: Seq<ImpactEntry>, symbols: Seq<SymbolView>, repo: Option<Seq<char>>)
    ensures
        ({
            let all = blast::blast(g, table, symbols, repo);
            &&& forall|h: HitView| #[trigger]
                is_hit(g, table, symbols, repo, h) && g.has(h.uid) ==> exists|a: AffectedView| #[trigger]
                    all.contains(a) && a.uid == h.uid
            &&& forall|a: AffectedView| #[trigger] all.contains(a) ==> tells(g, table, symbols, repo, a)
            &&& forall|x: int, y: int|
                0 <= x < y < all.len() ==> {
                    let a = #[trigger] all[x];
                    let b = #[trigger] all[y];
                    a.uid != b.uid && (a.confidence > b.confidence || (a.confidence == b.confidence && order::text_lt(
                        a.uid,
                        b.uid,
                    )))
                }
        }),
{
    let roots = blast::roots_upto(g, symbols, repo, symbols.len());
    let hits = blast::hits_upto(table, roots, roots.len());
    let best = blast::best_upto(hits, hits.len());
    let keys = ordmap::sorted_keys(best);
    let all = blast::blast(g, table, symbols, repo);
    assert forall|h: HitView| #[trigger] is_hit(g, table, symbols, repo, h) && g.has(h.uid) implies exists|
        a: AffectedView,
    | #[trigger] all.contains(a) && a.uid == h.uid by {
        lemma_in_report(g, table, symbols, repo, h);
    }
    assert forall|a: AffectedView| #[trigger] all.contains(a) implies tells(g, table, symbols, repo, a) by {
        lemma_report_tells(g, table, symbols, repo, a);
    }
    lemma_keys(hits);
    lemma_affected_once(g, best, keys, keys.len());
    lemma_sorted(blast::affected_upto(g, best, keys, keys.len()));
}

proof fn lemma_sorted(raw: Seq<AffectedView>)
    requires
        forall|x: int, y: int| 0 <= x < y < raw.len() ==> (#[trigger] raw[x]).uid != (#[trigger] raw[y]).uid,
    ensures
        ({
            let all = order::arranged(raw, order::order_of(blast::affected_keys(raw)));
            forall|x: int, y: int|
                0 <= x < y < all.len() ==> {
                    let a = #[trigger] all[x];
                    let b = #[trigger] all[y];
                    a.uid != b.uid && (a.confidence > b.confidence || (a.confidence == b.confidence && order::text_lt(
                        a.uid,
                        b.uid,
                    )))
                }
        }),
{
    let keys = blast::affected_keys(raw);
    let at = order::order_of(keys);
    order::law_stable_order_exists(keys);
    order::law_sorted_in_order(keys);
    let sorted = order::arranged(keys, at);
    let all = order::arranged(raw, at);
    assert forall|x: int, y: int| 0 <= x < y < all.len() implies {
        let a = #[trigger] all[x];
        let b = #[trigger] all[y];
        a.uid != b.uid && (a.confidence > b.confidence || (a.confidence == b.confidence && order::text_lt(
            a.uid,
            b.uid,
        )))
    } by {
        let a = all[x];
        let b = all[y];
        assert(order::stands_before(keys, at[x], at[y]));
        assert(at[x] != at[y]);
        assert(raw[at[x]].uid != raw[at[y]].uid);
        assert(!order::key_lt(sorted[y], sorted[x]));
        order::lemma_text_total(a.uid, b.uid);
    }
}

// ----------------------------------------------------------------------------------------------
// How risky a change is
// ----------------------------------------------------------------------------------------------

/// Whether a package is one of what was changed: a changed symbol names a node of it.
pub open spec fn is_changed_package(g: GraphView, symbols: Seq<SymbolView>, repo: Option<Seq<char>>, pkg: Seq<char>) -> bool {
    exists|s: int, u: Seq<char>|
        0 <= s < symbols.len() && #[trigger] names(g, symbols[s], repo, u) && is_of_package(u, pkg)
}

/// Whether affected node `i` lies outside the packages of what was changed.
pub open spec fn is_outside(
    g: GraphView,
    symbols: Seq<SymbolView>,
    repo: Option<Seq<char>>,
    a: AffectedView,
    pkg: Seq<char>,
) -> bool {
    is_of_package(a.uid, pkg) && !is_changed_package(g, symbols, repo, pkg)
}

/// Whether a change leaves the packages of what was changed. Where no package is known to be changed,
/// none is left.
pub open spec fn leaves(g: GraphView, symbols: Seq<SymbolView>, affected: Seq<AffectedView>, repo: Option<Seq<char>>) -> bool {
    &&& exists|pkg: Seq<char>| #[trigger] is_changed_package(g, symbols, repo, pkg)
    &&& exists|i: int, pkg: Seq<char>|
        0 <= i < affected.len() && #[trigger] is_outside(g, symbols, repo, affected[i], pkg)
}

/// Whether a change breaks a contract.
pub open spec fn breaks_contract(symbols: Seq<SymbolView>) -> bool {
    exists|i: int| 0 <= i < symbols.len() && (#[trigger] symbols[i]).contract_change == Some(ContractChange::Breaking)
}

/// Whether a change reaches contract surface.
pub open spec fn reaches_surface(affected: Seq<AffectedView>) -> bool {
    exists|i: int|
        0 <= i < affected.len() && ((#[trigger] affected[i]).kind == "ApiOperation"@ || affected[i].kind
            == "GraphqlField"@)
}

proof fn lemma_packages_of(uids: Seq<Seq<char>>, n: nat, pkg: Seq<char>)
    requires
        n <= uids.len(),
    ensures
        blast::packages_of(uids, n).contains(pkg) == exists|i: int| 0 <= i < n && is_of_package(#[trigger] uids[i], pkg),
    decreases n,
{
    if n > 0 {
        let last = n - 1;
        lemma_packages_of(uids, (n - 1) as nat, pkg);
        law_package(uids[last]);
        assert((blast::package(uids[last]) == Some(pkg)) == is_of_package(uids[last], pkg));
        let rest = blast::packages_of(uids, (n - 1) as nat);
        if blast::package(uids[last]) is Some {
            model::lemma_pushed(rest, blast::package(uids[last])->0, pkg);
        }
    }
}

proof fn lemma_packages(g: GraphView, symbols: Seq<SymbolView>, repo: Option<Seq<char>>, n: nat, pkg: Seq<char>)
    requires
        n <= symbols.len(),
    ensures
        blast::packages_upto(g, symbols, repo, n).contains(pkg) == exists|s: int, u: Seq<char>|
            0 <= s < n && #[trigger] names(g, symbols[s], repo, u) && is_of_package(u, pkg),
    decreases n,
{
    if n > 0 {
        let m = (n - 1) as nat;
        let last = n - 1;
        lemma_packages(g, symbols, repo, m, pkg);
        let uids = blast::resolved(g, symbols[last], repo);
        lemma_packages_of(uids, uids.len(), pkg);
        model::lemma_joined(blast::packages_upto(g, symbols, repo, m), blast::packages_of(uids, uids.len()), pkg);
        assert forall|u: Seq<char>| uids.contains(u) == #[trigger] names(g, symbols[last], repo, u) by {
            lemma_resolved(g, symbols[last], repo, u);
        }
        if blast::packages_of(uids, uids.len()).contains(pkg) {
            let i = choose|i: int| 0 <= i < uids.len() && is_of_package(#[trigger] uids[i], pkg);
            assert(uids.contains(uids[i]));
            assert(names(g, symbols[last], repo, uids[i]));
        }
        if exists|s: int, u: Seq<char>|
            0 <= s < n && #[trigger] names(g, symbols[s], repo, u) && is_of_package(u, pkg) {
            let (s, u) = choose|s: int, u: Seq<char>|
                0 <= s < n && #[trigger] names(g, symbols[s], repo, u) && is_of_package(u, pkg);
            if s == last {
                assert(uids.contains(u));
                let i = choose|i: int| 0 <= i < uids.len() && uids[i] == u;
                assert(is_of_package(uids[i], pkg));
            } else {
                assert(s < m);
            }
        }
    }
}

proof fn lemma_crossing(affected: Seq<AffectedView>, packages: Seq<Seq<char>>, from: int)
    requires
        0 <= from,
    ensures
        match blast::crossing_from(affected, packages, from) {
            Some(c) => exists|i: int|
                from <= i < affected.len() && is_of_package((#[trigger] affected[i]).uid, c.0) && c.1
                    == affected[i].name && !packages.contains(c.0) && forall|k: int, pkg: Seq<char>|
                    from <= k < i && #[trigger] is_of_package(affected[k].uid, pkg) ==> packages.contains(pkg),
            None => forall|k: int, pkg: Seq<char>|
                from <= k < affected.len() && #[trigger] is_of_package(affected[k].uid, pkg) ==> packages.contains(pkg),
        },
    decreases affected.len() - from,
{
    if from < affected.len() {
        law_package(affected[from].uid);
        let p = blast::package(affected[from].uid);
        if p is Some && !packages.contains(p->0) {
            assert(is_of_package(affected[from].uid, p->0));
        } else {
            lemma_crossing(affected, packages, from + 1);
            assert forall|pkg: Seq<char>| #[trigger] is_of_package(affected[from].uid, pkg) implies packages.contains(
                pkg,
            ) by {
                assert(p == Some(pkg));
            }
            if blast::crossing_from(affected, packages, from) is Some {
                let c = blast::crossing_from(affected, packages, from)->0;
                let i = choose|i: int|
                    from + 1 <= i < affected.len() && is_of_package((#[trigger] affected[i]).uid, c.0) && c.1
                        == affected[i].name && !packages.contains(c.0) && forall|k: int, pkg: Seq<char>|
                        from + 1 <= k < i && #[trigger] is_of_package(affected[k].uid, pkg) ==> packages.contains(pkg);
                assert forall|k: int, pkg: Seq<char>|
                    from <= k < i && #[trigger] is_of_package(affected[k].uid, pkg) implies packages.contains(pkg) by {
                    if k == from {
                        assert(is_of_package(affected[from].uid, pkg));
                    }
                }
                assert(is_of_package(affected[i].uid, c.0));
            } else {
                assert forall|k: int, pkg: Seq<char>|
                    from <= k < affected.len() && #[trigger] is_of_package(affected[k].uid, pkg) implies packages.contains(
                pkg) by {
                    if k == from {
                        assert(is_of_package(affected[from].uid, pkg));
                    }
                }
            }
        }
    }
}

/// Whether the change leaves its packages first at affected node `i`, for a package.
pub open spec fn leaves_at(
    g: GraphView,
    symbols: Seq<SymbolView>,
    affected: Seq<AffectedView>,
    repo: Option<Seq<char>>,
    i: int,
    pkg: Seq<char>,
) -> bool {
    &&& 0 <= i < affected.len()
    &&& is_outside(g, symbols, repo, affected[i], pkg)
    &&& forall|k: int, p: Seq<char>| 0 <= k < i ==> !#[trigger] is_outside(g, symbols, repo, affected[k], p)
}

proof fn lemma_leaves(
    g: GraphView,
    symbols: Seq<SymbolView>,
    affected: Seq<AffectedView>,
    repo: Option<Seq<char>>,
)
    ensures
        ({
            let c = blast::crossing(affected, blast::packages_upto(g, symbols, repo, symbols.len()));
            &&& c is Some <==> leaves(g, symbols, affected, repo)
            &&& c is Some ==> exists|i: int| #[trigger]
                leaves_at(g, symbols, affected, repo, i, (c->0).0) && (c->0).1 == affected[i].name
        }),
{
    let packages = blast::packages_upto(g, symbols, repo, symbols.len());
    assert forall|pkg: Seq<char>|
        #![trigger packages.contains(pkg)]
        #![trigger is_changed_package(g, symbols, repo, pkg)]
        packages.contains(pkg) == is_changed_package(g, symbols, repo, pkg) by {
        lemma_packages(g, symbols, repo, symbols.len(), pkg);
    }
    lemma_crossing(affected, packages, 0);
    if packages.len() > 0 {
        assert(packages.contains(packages[0]));
        assert(is_changed_package(g, symbols, repo, packages[0]));
    }
    let c = blast::crossing(affected, packages);
    if c is Some {
        let i = choose|i: int|
            0 <= i < affected.len() && is_of_package((#[trigger] affected[i]).uid, (c->0).0) && (c->0).1
                == affected[i].name && !packages.contains((c->0).0) && forall|k: int, pkg: Seq<char>|
                0 <= k < i && #[trigger] is_of_package(affected[k].uid, pkg) ==> packages.contains(pkg);
        assert(is_outside(g, symbols, repo, affected[i], (c->0).0));
        assert forall|k: int, p: Seq<char>| 0 <= k < i implies !#[trigger] is_outside(
            g,
            symbols,
            repo,
            affected[k],
            p,
        ) by {
            if is_of_package(affected[k].uid, p) {
                assert(packages.contains(p));
            }
        }
        assert(leaves_at(g, symbols, affected, repo, i, (c->0).0));
    }
    if leaves(g, symbols, affected, repo) {
        let pkg = choose|pkg: Seq<char>| #[trigger] is_changed_package(g, symbols, repo, pkg);
        assert(packages.contains(pkg));
        let (i, p) = choose|i: int, p: Seq<char>|
            0 <= i < affected.len() && #[trigger] is_outside(g, symbols, repo, affected[i], p);
        assert(is_of_package(affected[i].uid, p));
        assert(!packages.contains(p));
    }
}

/// How risky a change is: critical exactly if it breaks a contract, reaches contract surface or leaves
/// the packages of what was changed. Else the number of affected nodes decides: fewer than five are a
/// low risk, more than fifteen a high one.
pub proof fn law_risk_level(
    g: GraphView,
    symbols: Seq<SymbolView>,
    affected: Seq<AffectedView>,
    repo: Option<Seq<char>>,
)
    ensures
        ({
            let level = blast::risk_of(g, symbols, affected, repo).level;
            let calm = !breaks_contract(symbols) && !reaches_surface(affected) && !leaves(g, symbols, affected, repo);
            &&& level == RiskLevel::Critical <==> !calm
            &&& level == RiskLevel::Low <==> calm && affected.len() < 5
            &&& level == RiskLevel::Medium <==> calm && 5 <= affected.len() <= 15
            &&& level == RiskLevel::High <==> calm && affected.len() > 15
        }),
{
    lemma_leaves(g, symbols, affected, repo);
    let sym = symbols.len() as int;
    assert(blast::some_breaking(symbols, sym) == breaks_contract(symbols));
    let aff = affected.len() as int;
    if blast::some_surface(affected, aff) {
        let i = choose|i: int| 0 <= i < aff && blast::is_surface(#[trigger] affected[i]);
        assert(affected[i].kind == "ApiOperation"@ || affected[i].kind == "GraphqlField"@);
    }
    if reaches_surface(affected) {
        let i = choose|i: int|
            0 <= i < affected.len() && ((#[trigger] affected[i]).kind == "ApiOperation"@ || affected[i].kind
                == "GraphqlField"@);
        assert(blast::is_surface(affected[i]));
    }
}

/// Whether something is said of a changed operation.
pub open spec fn said_of_symbol(s: SymbolView, reason: Seq<char>) -> bool {
    ||| s.contract_change == Some(ContractChange::Breaking) && s.change == ChangeKind::Removed && reason
        == "breaking change to contract surface: "@ + s.key + " ("@ + "removed"@ + ")"@
    ||| s.contract_change == Some(ContractChange::Breaking) && s.change != ChangeKind::Removed && reason
        == "breaking change to contract surface: "@ + s.key + " ("@ + "modified"@ + ")"@
    ||| s.contract_change == Some(ContractChange::Additive) && reason == "additive contract change: "@ + s.key
        + " (new surface; existing consumers unaffected)"@
}

/// Whether something is said of affected contract surface.
pub open spec fn said_of_surface(a: AffectedView, reason: Seq<char>) -> bool {
    (a.kind == "ApiOperation"@ || a.kind == "GraphqlField"@) && reason == "affects contract surface: "@ + a.name
}

proof fn lemma_symbol_reasons(symbols: Seq<SymbolView>, n: nat, r: Seq<char>)
    requires
        n <= symbols.len(),
    ensures
        blast::symbol_reasons(symbols, n).contains(r) == exists|i: int|
            0 <= i < n && said_of_symbol(#[trigger] symbols[i], r),
    decreases n,
{
    if n > 0 {
        let last = n - 1;
        lemma_symbol_reasons(symbols, (n - 1) as nat, r);
        let rest = blast::symbol_reasons(symbols, (n - 1) as nat);
        assert((blast::symbol_reason(symbols[last]) == Some(r)) == said_of_symbol(symbols[last], r));
        if blast::symbol_reason(symbols[last]) is Some {
            model::lemma_pushed(rest, blast::symbol_reason(symbols[last])->0, r);
        }
    }
}

proof fn lemma_surface_reasons(affected: Seq<AffectedView>, n: nat, r: Seq<char>)
    requires
        n <= affected.len(),
    ensures
        blast::surface_reasons(affected, n).contains(r) == exists|i: int|
            0 <= i < n && said_of_surface(#[trigger] affected[i], r),
    decreases n,
{
    if n > 0 {
        let last = n - 1;
        lemma_surface_reasons(affected, (n - 1) as nat, r);
        let rest = blast::surface_reasons(affected, (n - 1) as nat);
        model::lemma_pushed(rest, "affects contract surface: "@ + affected[last].name, r);
    }
}

/// Why a change is risky: every changed operation is named, and all contract surface that is reached,
/// and the first node outside the packages of what was changed; the last reason is the number of
/// affected nodes; and nothing else is said.
pub proof fn law_risk_reasons(
    g: GraphView,
    symbols: Seq<SymbolView>,
    affected: Seq<AffectedView>,
    repo: Option<Seq<char>>,
    r: Seq<char>,
)
    ensures
        ({
            let risk = blast::risk_of(g, symbols, affected, repo);
            let count = text::decimal(affected.len()) + if risk.level == RiskLevel::Critical {
                " affected (critical override)"@
            } else {
                " affected"@
            };
            &&& risk.reasons.len() > 0
            &&& risk.reasons.last() == count
            &&& risk.reasons.contains(r) <==> {
                ||| r == count
                ||| exists|i: int| 0 <= i < symbols.len() && said_of_symbol(#[trigger] symbols[i], r)
                ||| exists|i: int| 0 <= i < affected.len() && said_of_surface(#[trigger] affected[i], r)
                ||| leaves(g, symbols, affected, repo) && exists|i: int, pkg: Seq<char>| #[trigger]
                    leaves_at(g, symbols, affected, repo, i, pkg) && r == "crosses repo boundary into "@ + pkg + ": "@
                        + affected[i].name
            }
        }),
{
    let packages = blast::packages_upto(g, symbols, repo, symbols.len());
    let risk = blast::risk_of(g, symbols, affected, repo);
    let count = text::decimal(affected.len()) + if risk.level == RiskLevel::Critical {
        " affected (critical override)"@
    } else {
        " affected"@
    };
    let a = blast::symbol_reasons(symbols, symbols.len());
    let b = blast::surface_reasons(affected, affected.len());
    lemma_symbol_reasons(symbols, symbols.len(), r);
    lemma_surface_reasons(affected, affected.len(), r);
    model::lemma_joined(a, b, r);
    lemma_leaves(g, symbols, affected, repo);
    match blast::crossing(affected, packages) {
        Some(c) => {
            let crossed = (a + b).push("crosses repo boundary into "@ + c.0 + ": "@ + c.1);
            model::lemma_pushed(a + b, "crosses repo boundary into "@ + c.0 + ": "@ + c.1, r);
            model::lemma_pushed(crossed, count, r);
            let i = choose|i: int| #[trigger]
                leaves_at(g, symbols, affected, repo, i, c.0) && c.1 == affected[i].name;
            assert forall|k: int, p: Seq<char>| #[trigger] leaves_at(g, symbols, affected, repo, k, p) implies k == i && p
                == c.0 by {
                assert(is_outside(g, symbols, repo, affected[i], c.0));
                assert(is_outside(g, symbols, repo, affected[k], p));
                law_package(affected[i].uid);
                assert((blast::package(affected[i].uid) == Some(c.0)) == is_of_package(affected[i].uid, c.0));
                assert((blast::package(affected[i].uid) == Some(p)) == is_of_package(affected[i].uid, p));
            }
        },
        None => {
            model::lemma_pushed(a + b, count, r);
        },
    }
}

// ----------------------------------------------------------------------------------------------
// The symbols of a file
// ----------------------------------------------------------------------------------------------

/// Whether a node is a symbol of a file, and of the repository where one is given.
pub open spec fn is_symbol_of(x: NodeView, file: Seq<char>, repo: Option<Seq<char>>) -> bool {
    &&& x.kind != NodeKind::Repo && x.kind != NodeKind::Package && x.kind != NodeKind::File
    &&& x.path.len() > 0 && file.len() > 0 && (x.path == file || is_below(x.path, file) || is_below(file, x.path))
    &&& repo matches Some(name) ==> is_of_package(x.uid, name)
}

proof fn lemma_nodes_in(nodes: Seq<NodeView>, file: Seq<char>, repo: Option<Seq<char>>, n: nat, x: NodeView)
    requires
        n <= nodes.len(),
    ensures
        blast::nodes_in(nodes, file, repo, n).contains(x) == exists|i: int|
            0 <= i < n && #[trigger] nodes[i] == x && is_symbol_of(x, file, repo),
    decreases n,
{
    if n > 0 {
        let last = n - 1;
        lemma_nodes_in(nodes, file, repo, (n - 1) as nat, x);
        let node = nodes[last];
        law_paths(node.path, file);
        law_package(node.uid);
        if repo is Some {
            assert((blast::package(node.uid) == Some(repo->0)) == is_of_package(node.uid, repo->0));
        }
        model::lemma_pushed(blast::nodes_in(nodes, file, repo, (n - 1) as nat), node, x);
    }
}

/// The symbols of a file are all the nodes that lie in it and are no containers, each as a modified
/// symbol; to modify an operation breaks its contract.
pub proof fn law_file_symbols(g: GraphView, file: Seq<char>, repo: Option<Seq<char>>)
    ensures
        forall|x: NodeView| #[trigger]
            blast::file_nodes(g, file, repo).contains(x) == (g.nodes.contains(x) && is_symbol_of(x, file, repo)),
        blast::as_modified(blast::file_nodes(g, file, repo)).len() == blast::file_nodes(g, file, repo).len(),
        blast::reported(blast::file_nodes(g, file, repo)).len() == blast::file_nodes(g, file, repo).len(),
        forall|i: int|
            0 <= i < blast::file_nodes(g, file, repo).len() ==> {
                let x = blast::file_nodes(g, file, repo)[i];
                let s = #[trigger] blast::as_modified(blast::file_nodes(g, file, repo))[i];
                &&& s.change == ChangeKind::Modified && s.key == x.fqn && s.file == x.path
                &&& s.contract_change == if x.kind == NodeKind::ApiOperation || x.kind == NodeKind::GraphqlField {
                    Some(ContractChange::Breaking)
                } else {
                    None
                }
            },
        forall|x: NodeView| g.nodes.contains(x) && #[trigger] is_symbol_of(x, file, repo) ==> exists|i: int|
            0 <= i < blast::reported(blast::file_nodes(g, file, repo)).len() && {
                let s = #[trigger] blast::reported(blast::file_nodes(g, file, repo))[i];
                s.fqn == x.fqn && s.name == x.name
            },
{
    let s = blast::nodes_in(g.nodes, file, repo, g.nodes.len());
    order::law_sorting_keeps(s, blast::node_keys(s));
    let nodes = blast::file_nodes(g, file, repo);
    assert forall|x: NodeView| #[trigger] nodes.contains(x) == (g.nodes.contains(x) && is_symbol_of(x, file, repo)) by {
        lemma_nodes_in(g.nodes, file, repo, g.nodes.len(), x);
        if g.nodes.contains(x) {
            let i = choose|i: int| 0 <= i < g.nodes.len() && g.nodes[i] == x;
            assert(g.nodes[i] == x);
        }
    }
    order::law_sorting_keeps(nodes, blast::fqn_keys(nodes));
    let by_fqn = order::arranged(nodes, order::order_of(blast::fqn_keys(nodes)));
    assert forall|x: NodeView| g.nodes.contains(x) && #[trigger] is_symbol_of(x, file, repo) implies exists|i: int|
        0 <= i < blast::reported(nodes).len() && {
            let s = #[trigger] blast::reported(nodes)[i];
            s.fqn == x.fqn && s.name == x.name
        } by {
        assert(nodes.contains(x));
        assert(by_fqn.contains(x));
        let i = choose|i: int| 0 <= i < by_fqn.len() && by_fqn[i] == x;
        assert(blast::reported(nodes)[i].fqn == x.fqn);
    }
}

} // verus!
