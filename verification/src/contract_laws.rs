//! What the contract plane says of a repository, told by its operations, routes, resolvers and signals.
use vstd::prelude::*;

use crate::analysis::{FileEntry, RawSymbol, ResolverEntry, RouteDecl};
use crate::contract;
use crate::contract::{
    CallSignal, ConsumerLink, ContractFormat, Declares, DocReading, DocSignal, FileSignals, LinkState, OperationDef,
    OwnerView,
};
use crate::lang;
use crate::model;
use crate::model::{EdgeKind, EdgeView, GraphView, NodeKind, NodeView, Provenance, Span};
use crate::order;

verus! {

/// The identifier of an operation of a repository.
pub open spec fn op_uid(repo: Seq<char>, op: OperationDef) -> Seq<char> {
    model::uid_text("contract"@, repo, op.spec_path@, op.key@, ""@)
}

/// The identifier of a symbol of a file, under the language of the file.
pub open spec fn code_uid(repo: Seq<char>, path: Seq<char>, fqn: Seq<char>) -> Seq<char> {
    model::uid_text(lang::language_or_ts(path), repo, path, fqn, ""@)
}

/// The node that something in a file belongs to: the symbol around it, else the module.
pub open spec fn around(repo: Seq<char>, path: Seq<char>, enclosing: Seq<char>) -> Seq<char> {
    code_uid(
        repo,
        path,
        if enclosing.len() == 0 {
            "<module>"@
        } else {
            enclosing
        },
    )
}

// ----------------------------------------------------------------------------------------------
// Who produces
// ----------------------------------------------------------------------------------------------

/// Whether symbol `i` is a function or a method of this name.
pub open spec fn has_name(syms: Seq<RawSymbol>, name: Seq<char>, i: int) -> bool {
    &&& 0 <= i < syms.len()
    &&& syms[i].kind == NodeKind::Function || syms[i].kind == NodeKind::Method
    &&& syms[i].name@ == name
}

/// Whether symbol `i` is the handler of this name: the first at the top level of the file, or the first
/// anywhere where there is none at the top level.
pub open spec fn is_the_handler(syms: Seq<RawSymbol>, name: Seq<char>, i: int) -> bool {
    &&& has_name(syms, name, i)
    &&& if syms[i].container_fqn is None {
        forall|k: int| 0 <= k < i && has_name(syms, name, k) ==> (#[trigger] syms[k]).container_fqn is Some
    } else {
        forall|k: int| has_name(syms, name, k) ==> (#[trigger] syms[k]).container_fqn is Some && i <= k
    }
}

/// Whether `src` is what produces: the named handler where it is a node, else what the declaration
/// stands in.
pub open spec fn is_producer(
    g: GraphView,
    repo: Seq<char>,
    path: Seq<char>,
    syms: Seq<RawSymbol>,
    handler: Option<String>,
    enclosing: Seq<char>,
    src: Seq<char>,
) -> bool {
    ||| handler matches Some(name) && exists|i: int| #[trigger]
        is_the_handler(syms, name@, i) && g.has(code_uid(repo, path, syms[i].fqn@)) && src == code_uid(
            repo,
            path,
            syms[i].fqn@,
        )
    ||| src == around(repo, path, enclosing) && (handler matches Some(name) ==> forall|i: int| #[trigger]
        is_the_handler(syms, name@, i) ==> !g.has(code_uid(repo, path, syms[i].fqn@)))
}

proof fn lemma_handler_from(syms: Seq<RawSymbol>, name: Seq<char>, top: bool, from: int)
    requires
        0 <= from,
    ensures
        match contract::handler_from(syms, name, top, from) {
            Some(fqn) => exists|i: int|
                from <= i && has_name(syms, name, i) && (top ==> syms[i].container_fqn is None) && fqn == (
                #[trigger] syms[i]).fqn@ && forall|k: int|
                    from <= k < i && has_name(syms, name, k) ==> top && (#[trigger] syms[k]).container_fqn is Some,
            None => forall|k: int|
                from <= k && has_name(syms, name, k) ==> top && (#[trigger] syms[k]).container_fqn is Some,
        },
    decreases syms.len() - from,
{
    if from < syms.len() {
        if contract::is_handler(syms[from], name, top) {
            assert(has_name(syms, name, from));
        } else {
            lemma_handler_from(syms, name, top, from + 1);
            if contract::handler_from(syms, name, top, from) is Some {
                let fqn = contract::handler_from(syms, name, top, from)->0;
                let i = choose|i: int|
                    from + 1 <= i && has_name(syms, name, i) && (top ==> syms[i].container_fqn is None) && fqn == (
                    #[trigger] syms[i]).fqn@ && forall|k: int|
                        from + 1 <= k < i && has_name(syms, name, k) ==> top && (
                        #[trigger] syms[k]).container_fqn is Some;
                assert(has_name(syms, name, i));
                assert forall|k: int| from <= k < i && has_name(syms, name, k) implies top && (
                #[trigger] syms[k]).container_fqn is Some by {}
            }
        }
    }
}

proof fn lemma_best_handler(syms: Seq<RawSymbol>, name: Seq<char>)
    ensures
        match contract::best_handler(syms, name) {
            Some(fqn) => exists|i: int| #[trigger] is_the_handler(syms, name, i) && syms[i].fqn@ == fqn,
            None => forall|i: int| !#[trigger] is_the_handler(syms, name, i),
        },
        forall|i: int, k: int| #[trigger] is_the_handler(syms, name, i) && #[trigger] is_the_handler(syms, name, k)
            ==> i == k,
{
    lemma_handler_from(syms, name, true, 0);
    lemma_handler_from(syms, name, false, 0);
    match contract::handler_from(syms, name, true, 0) {
        Some(fqn) => {
            let i = choose|i: int|
                0 <= i && has_name(syms, name, i) && syms[i].container_fqn is None && fqn == (
                #[trigger] syms[i]).fqn@ && forall|k: int|
                    0 <= k < i && has_name(syms, name, k) ==> (#[trigger] syms[k]).container_fqn is Some;
            assert(is_the_handler(syms, name, i));
        },
        None => {
            match contract::handler_from(syms, name, false, 0) {
                Some(fqn) => {
                    let i = choose|i: int|
                        0 <= i && has_name(syms, name, i) && fqn == (#[trigger] syms[i]).fqn@ && forall|k: int|
                            0 <= k < i && has_name(syms, name, k) ==> false && (
                            #[trigger] syms[k]).container_fqn is Some;
                    assert(is_the_handler(syms, name, i)) by {
                        assert forall|k: int| has_name(syms, name, k) implies (#[trigger] syms[k]).container_fqn is Some
                            && i <= k by {}
                    }
                },
                None => {},
            }
        },
    }
    assert forall|i: int, k: int| #[trigger] is_the_handler(syms, name, i) && #[trigger] is_the_handler(
        syms,
        name,
        k,
    ) implies i == k by {
        assert(syms[i].name@ == name && syms[k].name@ == name);
    }
}

proof fn lemma_producer(
    g: GraphView,
    repo: Seq<char>,
    path: Seq<char>,
    syms: Seq<RawSymbol>,
    handler: Option<String>,
    enclosing: Seq<char>,
    src: Seq<char>,
)
    ensures
        is_producer(g, repo, path, syms, handler, enclosing, src) == (src == contract::handler_or_enclosing(
            g,
            repo,
            path,
            syms,
            handler,
            enclosing,
        )),
{
    if handler is Some {
        lemma_best_handler(syms, handler->0@);
    }
}

// ----------------------------------------------------------------------------------------------
// What is produced
// ----------------------------------------------------------------------------------------------

/// Whether a route implements operation `o`: the same normalized path, and the same method unless the
/// route is declared for any.
pub open spec fn serves(route: RouteDecl, ops: Seq<OperationDef>, o: int) -> bool {
    &&& 0 <= o < ops.len()
    &&& ops[o].norm_path@ == route.norm_path@
    &&& route.method@ != "ANY"@ ==> ops[o].method@ == route.method@
}

/// Whether a resolver implements operation `o`: the GraphQL field of its type and name.
pub open spec fn resolves(entry: ResolverEntry, ops: Seq<OperationDef>, o: int) -> bool {
    &&& 0 <= o < ops.len()
    &&& ops[o].format == ContractFormat::Graphql
    &&& ops[o].key@ == entry.op_type@ + "."@ + entry.field@
}

/// Whether an edge says that route `r` of file `f` produces operation `o`: an inference where the route
/// implements no other, the weaker where the route tells no method, else an ambiguity.
pub open spec fn route_gives(
    g: GraphView,
    repo: Seq<char>,
    files: Seq<FileEntry>,
    ops: Seq<OperationDef>,
    f: int,
    r: int,
    o: int,
    e: EdgeView,
) -> bool {
    let route = files[f].file.routes@[r];
    let alone = forall|k: int| #[trigger] serves(route, ops, k) ==> k == o;
    &&& 0 <= f < files.len()
    &&& 0 <= r < files[f].file.routes@.len()
    &&& serves(route, ops, o)
    &&& is_producer(
        g,
        repo,
        files[f].path@,
        files[f].file.symbols@,
        route.handler_name,
        route.enclosing_fqn@,
        e.src,
    )
    &&& e.dst == op_uid(repo, ops[o])
    &&& e.kind == EdgeKind::Produces
    &&& e.provenance == if alone {
        Provenance::Inferred
    } else {
        Provenance::Ambiguous
    }
    &&& e.confidence == if alone && route.method@ == "ANY"@ {
        650_000_000u32
    } else if alone {
        800_000_000
    } else {
        350_000_000
    }
}

/// Whether an edge says that resolver entry `r` of file `f` produces operation `o`.
pub open spec fn resolver_gives(
    g: GraphView,
    repo: Seq<char>,
    files: Seq<FileEntry>,
    ops: Seq<OperationDef>,
    f: int,
    r: int,
    o: int,
    e: EdgeView,
) -> bool {
    let entry = files[f].file.resolver_entries@[r];
    let alone = forall|k: int| #[trigger] resolves(entry, ops, k) ==> k == o;
    &&& 0 <= f < files.len()
    &&& 0 <= r < files[f].file.resolver_entries@.len()
    &&& resolves(entry, ops, o)
    &&& is_producer(
        g,
        repo,
        files[f].path@,
        files[f].file.symbols@,
        entry.handler_name,
        entry.enclosing_fqn@,
        e.src,
    )
    &&& e.dst == op_uid(repo, ops[o])
    &&& e.kind == EdgeKind::Produces
    &&& e.provenance == if alone {
        Provenance::Inferred
    } else {
        Provenance::Ambiguous
    }
    &&& e.confidence == if alone {
        800_000_000u32
    } else {
        350_000_000
    }
}

/// Whether a declaration implements operation `o`.
spec fn meant(d: Declares, ops: Seq<OperationDef>, o: int) -> bool {
    match d {
        Declares::Route(route) => serves(route, ops, o),
        Declares::Resolver(entry) => resolves(entry, ops, o),
    }
}

proof fn lemma_count(d: Declares, ops: Seq<OperationDef>, n: nat)
    requires
        n <= ops.len(),
    ensures
        forall|o: int| 0 <= o < ops.len() ==> #[trigger] meant(d, ops, o) == contract::implements(d, ops[o]),
        contract::match_count(d, ops, n) == order::counted(|o: int| meant(d, ops, o), n),
    decreases n,
{
    if n > 0 {
        lemma_count(d, ops, (n - 1) as nat);
    }
}

proof fn lemma_produced(
    g: GraphView,
    repo: Seq<char>,
    d: Declares,
    src: Seq<char>,
    grade: (Provenance, u32),
    ops: Seq<OperationDef>,
    n: nat,
    e: EdgeView,
)
    requires
        n <= ops.len(),
    ensures
        contract::with_produced(g, repo, d, src, grade, ops, n).nodes == g.nodes,
        contract::with_produced(g, repo, d, src, grade, ops, n).edges.contains(e) == (g.edges.contains(e)
            || exists|o: int|
            o < n && #[trigger] meant(d, ops, o) && e == model::edge_of(
                src,
                op_uid(repo, ops[o]),
                EdgeKind::Produces,
                grade.0,
                grade.1,
            )),
    decreases n,
{
    if n > 0 {
        let m = (n - 1) as nat;
        lemma_produced(g, repo, d, src, grade, ops, m, e);
        lemma_count(d, ops, n);
        let h = contract::with_produced(g, repo, d, src, grade, ops, m);
        let x = model::edge_of(src, op_uid(repo, ops[n - 1]), EdgeKind::Produces, grade.0, grade.1);
        assert(meant(d, ops, n - 1) == contract::implements(d, ops[n - 1]));
        model::lemma_pushed(h.edges, x, e);
        if exists|o: int|
            o < n && #[trigger] meant(d, ops, o) && e == model::edge_of(
                src,
                op_uid(repo, ops[o]),
                EdgeKind::Produces,
                grade.0,
                grade.1,
            ) {
            let o = choose|o: int|
                o < n && #[trigger] meant(d, ops, o) && e == model::edge_of(
                    src,
                    op_uid(repo, ops[o]),
                    EdgeKind::Produces,
                    grade.0,
                    grade.1,
                );
            assert(o < m || o == n - 1);
        }
    }
}

/// Whether an edge is one of a declaration of file `f`.
spec fn declared_gives(
    g: GraphView,
    repo: Seq<char>,
    files: Seq<FileEntry>,
    ops: Seq<OperationDef>,
    f: int,
    route: bool,
    r: int,
    e: EdgeView,
) -> bool {
    if route {
        exists|o: int| #[trigger] route_gives(g, repo, files, ops, f, r, o, e)
    } else {
        exists|o: int| #[trigger] resolver_gives(g, repo, files, ops, f, r, o, e)
    }
}

proof fn lemma_grade(d: Declares, ops: Seq<OperationDef>, o: int)
    requires
        meant(d, ops, o),
    ensures
        (contract::match_count(d, ops, ops.len()) == 1) == match d {
            Declares::Route(route) => forall|k: int| #[trigger] serves(route, ops, k) ==> k == o,
            Declares::Resolver(entry) => forall|k: int| #[trigger] resolves(entry, ops, k) ==> k == o,
        },
        contract::match_count(d, ops, ops.len()) > 0,
{
    lemma_count(d, ops, ops.len());
    lemma_alone(d, ops, o);
    let hit = |o: int| meant(d, ops, o);
    order::lemma_counted(hit, ops.len());
    assert(hit(o));
    if contract::match_count(d, ops, ops.len()) == 1 {
        assert forall|k: int| #[trigger] meant(d, ops, k) implies k == o by {
            assert(hit(k));
        }
    }
}

proof fn lemma_route_grade(
    g: GraphView,
    repo: Seq<char>,
    files: Seq<FileEntry>,
    ops: Seq<OperationDef>,
    f: int,
    r: int,
    o: int,
    e: EdgeView,
)
    requires
        0 <= f < files.len(),
        0 <= r < files[f].file.routes@.len(),
    ensures
        ({
            let route = files[f].file.routes@[r];
            let d = Declares::Route(route);
            let src = contract::handler_or_enclosing(
                g,
                repo,
                files[f].path@,
                files[f].file.symbols@,
                route.handler_name,
                route.enclosing_fqn@,
            );
            let grade = contract::producer_grade(d, contract::match_count(d, ops, ops.len()));
            route_gives(g, repo, files, ops, f, r, o, e) == (meant(d, ops, o) && e == model::edge_of(
                src,
                op_uid(repo, ops[o]),
                EdgeKind::Produces,
                grade.0,
                grade.1,
            ))
        }),
{
    let route = files[f].file.routes@[r];
    lemma_producer(
        g,
        repo,
        files[f].path@,
        files[f].file.symbols@,
        route.handler_name,
        route.enclosing_fqn@,
        e.src,
    );
    if serves(route, ops, o) {
        lemma_grade(Declares::Route(route), ops, o);
    }
}

proof fn lemma_resolver_grade(
    g: GraphView,
    repo: Seq<char>,
    files: Seq<FileEntry>,
    ops: Seq<OperationDef>,
    f: int,
    r: int,
    o: int,
    e: EdgeView,
)
    requires
        0 <= f < files.len(),
        0 <= r < files[f].file.resolver_entries@.len(),
    ensures
        ({
            let entry = files[f].file.resolver_entries@[r];
            let d = Declares::Resolver(entry);
            let src = contract::handler_or_enclosing(
                g,
                repo,
                files[f].path@,
                files[f].file.symbols@,
                entry.handler_name,
                entry.enclosing_fqn@,
            );
            let grade = contract::producer_grade(d, contract::match_count(d, ops, ops.len()));
            resolver_gives(g, repo, files, ops, f, r, o, e) == (meant(d, ops, o) && e == model::edge_of(
                src,
                op_uid(repo, ops[o]),
                EdgeKind::Produces,
                grade.0,
                grade.1,
            ))
        }),
{
    let entry = files[f].file.resolver_entries@[r];
    lemma_producer(
        g,
        repo,
        files[f].path@,
        files[f].file.symbols@,
        entry.handler_name,
        entry.enclosing_fqn@,
        e.src,
    );
    if resolves(entry, ops, o) {
        lemma_grade(Declares::Resolver(entry), ops, o);
    }
}

/// Whether an edge is one of a declaration, as it is graded.
spec fn graded(repo: Seq<char>, d: Declares, src: Seq<char>, ops: Seq<OperationDef>, o: int, e: EdgeView) -> bool {
    let grade = contract::producer_grade(d, contract::match_count(d, ops, ops.len()));
    meant(d, ops, o) && e == model::edge_of(src, op_uid(repo, ops[o]), EdgeKind::Produces, grade.0, grade.1)
}

proof fn lemma_declares(
    g: GraphView,
    base: GraphView,
    repo: Seq<char>,
    f: FileEntry,
    d: Declares,
    ops: Seq<OperationDef>,
    e: EdgeView,
)
    requires
        base.nodes == g.nodes,
    ensures
        ({
            let by = contract::declared_by(d);
            let src = contract::handler_or_enclosing(g, repo, f.path@, f.file.symbols@, by.0, by.1);
            let h = contract::with_producer(base, repo, f, d, ops);
            &&& h.nodes == g.nodes
            &&& h.edges.contains(e) == (base.edges.contains(e) || exists|o: int| #[trigger]
                graded(repo, d, src, ops, o, e))
        }),
{
    let by = contract::declared_by(d);
    let count = contract::match_count(d, ops, ops.len());
    let src = contract::handler_or_enclosing(g, repo, f.path@, f.file.symbols@, by.0, by.1);
    let grade = contract::producer_grade(d, count);
    assert(forall|v: Seq<char>| #[trigger] base.has(v) == g.has(v));
    lemma_count(d, ops, ops.len());
    let hit = |o: int| meant(d, ops, o);
    order::lemma_counted(hit, ops.len());
    if count > 0 {
        lemma_produced(base, repo, d, src, grade, ops, ops.len(), e);
        if exists|o: int|
            o < ops.len() && #[trigger] meant(d, ops, o) && e == model::edge_of(
                src,
                op_uid(repo, ops[o]),
                EdgeKind::Produces,
                grade.0,
                grade.1,
            ) {
            let o = choose|o: int|
                o < ops.len() && #[trigger] meant(d, ops, o) && e == model::edge_of(
                    src,
                    op_uid(repo, ops[o]),
                    EdgeKind::Produces,
                    grade.0,
                    grade.1,
                );
            assert(graded(repo, d, src, ops, o, e));
        }
    }
    if exists|o: int| #[trigger] graded(repo, d, src, ops, o, e) {
        let o = choose|o: int| #[trigger] graded(repo, d, src, ops, o, e);
        assert(o < ops.len() && hit(o));
    }
}

proof fn lemma_declared(
    g: GraphView,
    base: GraphView,
    repo: Seq<char>,
    files: Seq<FileEntry>,
    ops: Seq<OperationDef>,
    f: int,
    route: bool,
    r: int,
    e: EdgeView,
)
    requires
        0 <= f < files.len(),
        0 <= r,
        route ==> r < files[f].file.routes@.len(),
        !route ==> r < files[f].file.resolver_entries@.len(),
        base.nodes == g.nodes,
    ensures
        ({
            let d = if route {
                Declares::Route(files[f].file.routes@[r])
            } else {
                Declares::Resolver(files[f].file.resolver_entries@[r])
            };
            let h = contract::with_producer(base, repo, files[f], d, ops);
            &&& h.nodes == g.nodes
            &&& h.edges.contains(e) == (base.edges.contains(e) || declared_gives(
                g,
                repo,
                files,
                ops,
                f,
                route,
                r,
                e,
            ))
        }),
{
    let d = if route {
        Declares::Route(files[f].file.routes@[r])
    } else {
        Declares::Resolver(files[f].file.resolver_entries@[r])
    };
    let by = contract::declared_by(d);
    let src = contract::handler_or_enclosing(g, repo, files[f].path@, files[f].file.symbols@, by.0, by.1);
    lemma_declares(g, base, repo, files[f], d, ops, e);
    if route {
        assert forall|o: int| #[trigger] route_gives(g, repo, files, ops, f, r, o, e) == graded(
            repo,
            d,
            src,
            ops,
            o,
            e,
        ) by {
            lemma_route_grade(g, repo, files, ops, f, r, o, e);
        }
        if exists|o: int| #[trigger] graded(repo, d, src, ops, o, e) {
            let o = choose|o: int| #[trigger] graded(repo, d, src, ops, o, e);
            assert(route_gives(g, repo, files, ops, f, r, o, e));
        }
    } else {
        assert forall|o: int| #[trigger] resolver_gives(g, repo, files, ops, f, r, o, e) == graded(
            repo,
            d,
            src,
            ops,
            o,
            e,
        ) by {
            lemma_resolver_grade(g, repo, files, ops, f, r, o, e);
        }
        if exists|o: int| #[trigger] graded(repo, d, src, ops, o, e) {
            let o = choose|o: int| #[trigger] graded(repo, d, src, ops, o, e);
            assert(resolver_gives(g, repo, files, ops, f, r, o, e));
        }
    }
}

proof fn lemma_alone(d: Declares, ops: Seq<OperationDef>, o: int)
    ensures
        (forall|k: int| #[trigger] meant(d, ops, k) ==> k == o) == match d {
            Declares::Route(route) => forall|k: int| #[trigger] serves(route, ops, k) ==> k == o,
            Declares::Resolver(entry) => forall|k: int| #[trigger] resolves(entry, ops, k) ==> k == o,
        },
{
    match d {
        Declares::Route(route) => {
            if forall|k: int| #[trigger] meant(d, ops, k) ==> k == o {
                assert forall|k: int| #[trigger] serves(route, ops, k) implies k == o by {
                    assert(meant(d, ops, k));
                }
            }
        },
        Declares::Resolver(entry) => {
            if forall|k: int| #[trigger] meant(d, ops, k) ==> k == o {
                assert forall|k: int| #[trigger] resolves(entry, ops, k) implies k == o by {
                    assert(meant(d, ops, k));
                }
            }
        },
    }
}

proof fn lemma_routes(
    g: GraphView,
    base: GraphView,
    repo: Seq<char>,
    files: Seq<FileEntry>,
    ops: Seq<OperationDef>,
    f: int,
    n: nat,
    e: EdgeView,
)
    requires
        0 <= f < files.len(),
        n <= files[f].file.routes@.len(),
        base.nodes == g.nodes,
    ensures
        contract::with_routes(base, repo, files[f], ops, n).nodes == g.nodes,
        contract::with_routes(base, repo, files[f], ops, n).edges.contains(e) == (base.edges.contains(e)
            || exists|r: int, o: int| r < n && #[trigger] route_gives(g, repo, files, ops, f, r, o, e)),
    decreases n,
{
    if n > 0 {
        lemma_routes(g, base, repo, files, ops, f, (n - 1) as nat, e);
        let h = contract::with_routes(base, repo, files[f], ops, (n - 1) as nat);
        lemma_declared(g, h, repo, files, ops, f, true, n - 1, e);
        if exists|r: int, o: int| r < n && #[trigger] route_gives(g, repo, files, ops, f, r, o, e) {
            let (r, o) = choose|r: int, o: int| r < n && #[trigger] route_gives(g, repo, files, ops, f, r, o, e);
            assert(r < n - 1 || r == n - 1);
        }
    }
}

proof fn lemma_all_routes(
    g: GraphView,
    base: GraphView,
    repo: Seq<char>,
    files: Seq<FileEntry>,
    ops: Seq<OperationDef>,
    n: nat,
    e: EdgeView,
)
    requires
        n <= files.len(),
        base.nodes == g.nodes,
    ensures
        contract::with_all_routes(base, repo, files, ops, n).nodes == g.nodes,
        contract::with_all_routes(base, repo, files, ops, n).edges.contains(e) == (base.edges.contains(e)
            || exists|f: int, r: int, o: int| f < n && #[trigger] route_gives(g, repo, files, ops, f, r, o, e)),
    decreases n,
{
    if n > 0 {
        lemma_all_routes(g, base, repo, files, ops, (n - 1) as nat, e);
        let h = contract::with_all_routes(base, repo, files, ops, (n - 1) as nat);
        lemma_routes(g, h, repo, files, ops, n - 1, files[n - 1].file.routes@.len(), e);
        if exists|f: int, r: int, o: int| f < n && #[trigger] route_gives(g, repo, files, ops, f, r, o, e) {
            let (f, r, o) = choose|f: int, r: int, o: int|
                f < n && #[trigger] route_gives(g, repo, files, ops, f, r, o, e);
            assert(f < n - 1 || f == n - 1);
        }
    }
}

proof fn lemma_resolvers(
    g: GraphView,
    base: GraphView,
    repo: Seq<char>,
    files: Seq<FileEntry>,
    ops: Seq<OperationDef>,
    f: int,
    n: nat,
    e: EdgeView,
)
    requires
        0 <= f < files.len(),
        n <= files[f].file.resolver_entries@.len(),
        base.nodes == g.nodes,
    ensures
        contract::with_resolvers(base, repo, files[f], ops, n).nodes == g.nodes,
        contract::with_resolvers(base, repo, files[f], ops, n).edges.contains(e) == (base.edges.contains(e)
            || exists|r: int, o: int| r < n && #[trigger] resolver_gives(g, repo, files, ops, f, r, o, e)),
    decreases n,
{
    if n > 0 {
        lemma_resolvers(g, base, repo, files, ops, f, (n - 1) as nat, e);
        let h = contract::with_resolvers(base, repo, files[f], ops, (n - 1) as nat);
        lemma_declared(g, h, repo, files, ops, f, false, n - 1, e);
        if exists|r: int, o: int| r < n && #[trigger] resolver_gives(g, repo, files, ops, f, r, o, e) {
            let (r, o) = choose|r: int, o: int| r < n && #[trigger] resolver_gives(g, repo, files, ops, f, r, o, e);
            assert(r < n - 1 || r == n - 1);
        }
    }
}

proof fn lemma_all_resolvers(
    g: GraphView,
    base: GraphView,
    repo: Seq<char>,
    files: Seq<FileEntry>,
    ops: Seq<OperationDef>,
    n: nat,
    e: EdgeView,
)
    requires
        n <= files.len(),
        base.nodes == g.nodes,
    ensures
        contract::with_all_resolvers(base, repo, files, ops, n).nodes == g.nodes,
        contract::with_all_resolvers(base, repo, files, ops, n).edges.contains(e) == (base.edges.contains(e)
            || exists|f: int, r: int, o: int| f < n && #[trigger] resolver_gives(g, repo, files, ops, f, r, o, e)),
    decreases n,
{
    if n > 0 {
        lemma_all_resolvers(g, base, repo, files, ops, (n - 1) as nat, e);
        let h = contract::with_all_resolvers(base, repo, files, ops, (n - 1) as nat);
        lemma_resolvers(g, h, repo, files, ops, n - 1, files[n - 1].file.resolver_entries@.len(), e);
        if exists|f: int, r: int, o: int| f < n && #[trigger] resolver_gives(g, repo, files, ops, f, r, o, e) {
            let (f, r, o) = choose|f: int, r: int, o: int|
                f < n && #[trigger] resolver_gives(g, repo, files, ops, f, r, o, e);
            assert(f < n - 1 || f == n - 1);
        }
    }
}

// ----------------------------------------------------------------------------------------------
// Who consumes
// ----------------------------------------------------------------------------------------------

/// Whether owner `i` owns the key of a link.
pub open spec fn owned_by(owners: Seq<OwnerView>, link: ConsumerLink, i: int) -> bool {
    0 <= i < owners.len() && owners[i].format == link.format && owners[i].key == link.op_key@
}

/// Whether an edge is that of a link of a consumer to owner `i` of its key: an ambiguity where the key
/// has several owners, else as sure as the link, within the bounds of how it was learned.
pub open spec fn link_edge(owners: Seq<OwnerView>, consumer: Seq<char>, link: ConsumerLink, i: int, e: EdgeView) -> bool {
    let alone = forall|k: int| #[trigger] owned_by(owners, link, k) ==> k == i;
    &&& owned_by(owners, link, i)
    &&& e.src == consumer
    &&& e.dst == owners[i].uid
    &&& e.kind == EdgeKind::Consumes
    &&& !alone ==> e.provenance == Provenance::Ambiguous && e.confidence == 350_000_000
    &&& alone ==> e.provenance == link.provenance
    &&& alone && link.provenance == Provenance::Ambiguous ==> e.confidence <= 390_000_000 && (e.confidence
        == link.confidence || (e.confidence == 390_000_000 && link.confidence > 390_000_000))
    &&& alone && link.provenance == Provenance::Extracted ==> 950_000_000 <= e.confidence <= 1_000_000_000 && (
    e.confidence == link.confidence || (e.confidence == 950_000_000 && link.confidence < 950_000_000) || (e.confidence
        == 1_000_000_000 && link.confidence > 1_000_000_000))
    &&& alone && link.provenance != Provenance::Ambiguous && link.provenance != Provenance::Extracted
        ==> e.confidence <= 800_000_000 && (e.confidence == link.confidence || (e.confidence == 800_000_000
        && link.confidence > 800_000_000))
}

/// Whether an edge is that of an offered link between two nodes.
pub open spec fn offered_edge(
    g: GraphView,
    owners: Seq<OwnerView>,
    offered: spec_fn(Seq<char>, ConsumerLink) -> bool,
    e: EdgeView,
) -> bool {
    exists|link: ConsumerLink, i: int|
        offered(e.src, link) && g.has(e.src) && g.has(e.dst) && #[trigger] link_edge(owners, e.src, link, i, e)
}

/// Whether a pair of nodes has a consumer edge.
pub open spec fn consumes(g: GraphView, src: Seq<char>, dst: Seq<char>) -> bool {
    exists|i: int|
        0 <= i < g.edges.len() && (#[trigger] g.edges[i]).src == src && g.edges[i].dst == dst && g.edges[i].kind
            == EdgeKind::Consumes
}

/// Whether `t` is `s` with the offered links made: every offered link between nodes is recorded, every
/// record has its edge, and every edge is that of an offered link.
pub open spec fn made(
    s: LinkState,
    t: LinkState,
    owners: Seq<OwnerView>,
    offered: spec_fn(Seq<char>, ConsumerLink) -> bool,
) -> bool {
    &&& t.graph.nodes == s.graph.nodes
    &&& forall|p: (Seq<char>, Seq<char>)| #[trigger] s.linked.contains(p) ==> t.linked.contains(p)
    &&& forall|e: EdgeView| #[trigger] s.graph.edges.contains(e) ==> t.graph.edges.contains(e)
    &&& forall|c: Seq<char>, link: ConsumerLink, i: int|
        offered(c, link) && s.graph.has(c) && #[trigger] owned_by(owners, link, i) && s.graph.has(owners[i].uid)
            ==> #[trigger] t.linked.contains((c, owners[i].uid))
    &&& forall|e: EdgeView| #[trigger]
        t.graph.edges.contains(e) ==> s.graph.edges.contains(e) || offered_edge(s.graph, owners, offered, e)
    &&& forall|p: (Seq<char>, Seq<char>)| #[trigger]
        t.linked.contains(p) ==> s.linked.contains(p) || consumes(t.graph, p.0, p.1)
}

/// Links made one after another are made.
pub proof fn lemma_made_more(
    s: LinkState,
    t: LinkState,
    u: LinkState,
    owners: Seq<OwnerView>,
    p: spec_fn(Seq<char>, ConsumerLink) -> bool,
    q: spec_fn(Seq<char>, ConsumerLink) -> bool,
    r: spec_fn(Seq<char>, ConsumerLink) -> bool,
)
    requires
        made(s, t, owners, p),
        made(t, u, owners, q),
        forall|c: Seq<char>, l: ConsumerLink| #[trigger] r(c, l) == (p(c, l) || q(c, l)),
    ensures
        made(s, u, owners, r),
{
    assert(forall|v: Seq<char>| #[trigger] t.graph.has(v) == s.graph.has(v));
    assert forall|c: Seq<char>, link: ConsumerLink, i: int|
        r(c, link) && s.graph.has(c) && #[trigger] owned_by(owners, link, i) && s.graph.has(owners[i].uid) implies #[trigger] u.linked.contains(
    (c, owners[i].uid)) by {
        assert(r(c, link) == (p(c, link) || q(c, link)));
        if p(c, link) {
            assert(t.linked.contains((c, owners[i].uid)));
        } else {
            assert(t.graph.has(c) && t.graph.has(owners[i].uid));
        }
    }
    assert forall|e: EdgeView| #[trigger] u.graph.edges.contains(e) implies s.graph.edges.contains(e)
        || offered_edge(s.graph, owners, r, e) by {
        if t.graph.edges.contains(e) {
            if !s.graph.edges.contains(e) {
                let (link, i) = choose|link: ConsumerLink, i: int|
                    p(e.src, link) && s.graph.has(e.src) && s.graph.has(e.dst) && #[trigger] link_edge(
                        owners,
                        e.src,
                        link,
                        i,
                        e,
                    );
                assert(r(e.src, link));
            }
        } else {
            let (link, i) = choose|link: ConsumerLink, i: int|
                q(e.src, link) && t.graph.has(e.src) && t.graph.has(e.dst) && #[trigger] link_edge(
                    owners,
                    e.src,
                    link,
                    i,
                    e,
                );
            assert(r(e.src, link));
        }
    }
    assert forall|x: (Seq<char>, Seq<char>)| #[trigger] u.linked.contains(x) implies s.linked.contains(x) || consumes(
        u.graph,
        x.0,
        x.1,
    ) by {
        if t.linked.contains(x) && !s.linked.contains(x) {
            let i = choose|i: int|
                0 <= i < t.graph.edges.len() && (#[trigger] t.graph.edges[i]).src == x.0 && t.graph.edges[i].dst == x.1
                    && t.graph.edges[i].kind == EdgeKind::Consumes;
            let e = t.graph.edges[i];
            assert(t.graph.edges.contains(e));
            assert(u.graph.edges.contains(e));
            let k = choose|k: int| 0 <= k < u.graph.edges.len() && u.graph.edges[k] == e;
            assert(u.graph.edges[k].src == x.0);
        }
    }
}

/// Links are made of the same offers, however these are written.
pub proof fn lemma_made_same(
    s: LinkState,
    t: LinkState,
    owners: Seq<OwnerView>,
    p: spec_fn(Seq<char>, ConsumerLink) -> bool,
    q: spec_fn(Seq<char>, ConsumerLink) -> bool,
)
    requires
        made(s, t, owners, p),
        forall|c: Seq<char>, l: ConsumerLink| #[trigger] q(c, l) == p(c, l),
    ensures
        made(s, t, owners, q),
{
    lemma_made_more(s, t, t, owners, p, |c: Seq<char>, l: ConsumerLink| false, q);
}

proof fn lemma_owner_count(owners: Seq<OwnerView>, link: ConsumerLink, n: nat)
    requires
        n <= owners.len(),
    ensures
        contract::owner_count(owners, link, n) == order::counted(|i: int| owned_by(owners, link, i), n),
    decreases n,
{
    if n > 0 {
        lemma_owner_count(owners, link, (n - 1) as nat);
    }
}

proof fn lemma_one_owner(owners: Seq<OwnerView>, link: ConsumerLink, i: int)
    requires
        owned_by(owners, link, i),
    ensures
        contract::owner_count(owners, link, owners.len()) <= 1 <==> forall|k: int| #[trigger]
            owned_by(owners, link, k) ==> k == i,
{
    lemma_owner_count(owners, link, owners.len());
    let hit = |i: int| owned_by(owners, link, i);
    order::lemma_counted(hit, owners.len());
    assert(hit(i));
    if contract::owner_count(owners, link, owners.len()) <= 1 {
        assert forall|k: int| #[trigger] owned_by(owners, link, k) implies k == i by {
            assert(hit(k));
        }
    }
}

proof fn lemma_link_edge(owners: Seq<OwnerView>, consumer: Seq<char>, link: ConsumerLink, i: int)
    requires
        owned_by(owners, link, i),
    ensures
        ({
            let grade = contract::consumer_grade(link, contract::owner_count(owners, link, owners.len()) > 1);
            link_edge(
                owners,
                consumer,
                link,
                i,
                model::edge_of(consumer, owners[i].uid, EdgeKind::Consumes, grade.0, grade.1),
            )
        }),
{
    lemma_one_owner(owners, link, i);
}

/// What the first `n` owners of a link of a consumer add.
spec fn owners_made(s: LinkState, t: LinkState, consumer: Seq<char>, link: ConsumerLink, owners: Seq<OwnerView>, n: int) -> bool {
    &&& t.graph.nodes == s.graph.nodes
    &&& forall|p: (Seq<char>, Seq<char>)| #[trigger] s.linked.contains(p) ==> t.linked.contains(p)
    &&& forall|e: EdgeView| #[trigger] s.graph.edges.contains(e) ==> t.graph.edges.contains(e)
    &&& forall|i: int|
        i < n && #[trigger] owned_by(owners, link, i) && s.graph.has(owners[i].uid) ==> t.linked.contains(
            (consumer, owners[i].uid),
        )
    &&& forall|e: EdgeView| #[trigger]
        t.graph.edges.contains(e) ==> s.graph.edges.contains(e) || (s.graph.has(e.dst) && exists|i: int| #[trigger]
            link_edge(owners, consumer, link, i, e))
    &&& forall|p: (Seq<char>, Seq<char>)| #[trigger]
        t.linked.contains(p) ==> s.linked.contains(p) || consumes(t.graph, p.0, p.1)
}

proof fn lemma_owners_made(
    s: LinkState,
    consumer: Seq<char>,
    link: ConsumerLink,
    owners: Seq<OwnerView>,
    n: nat,
)
    requires
        n <= owners.len(),
    ensures
        owners_made(
            s,
            contract::with_owners(
                s,
                consumer,
                link,
                owners,
                contract::owner_count(owners, link, owners.len()) > 1,
                n,
            ),
            consumer,
            link,
            owners,
            n as int,
        ),
    decreases n,
{
    if n > 0 {
        let fan = contract::owner_count(owners, link, owners.len()) > 1;
        lemma_owners_made(s, consumer, link, owners, (n - 1) as nat);
        let t = contract::with_owners(s, consumer, link, owners, fan, (n - 1) as nat);
        let u = contract::with_owners(s, consumer, link, owners, fan, n);
        let o = owners[n - 1];
        assert(forall|v: Seq<char>| #[trigger] t.graph.has(v) == s.graph.has(v));
        assert(owned_by(owners, link, n - 1) == contract::owns(o, link));
        if contract::owns(o, link) && t.graph.has(o.uid) && !t.linked.contains((consumer, o.uid)) {
            let grade = contract::consumer_grade(link, fan);
            let x = model::edge_of(consumer, o.uid, EdgeKind::Consumes, grade.0, grade.1);
            lemma_link_edge(owners, consumer, link, n - 1);
            assert(u.graph == t.graph.with_edge(x));
            let pair = (consumer, o.uid);
            assert forall|e: EdgeView| #[trigger] u.graph.edges.contains(e) == (t.graph.edges.contains(e) || e == x) by {
                model::lemma_pushed(t.graph.edges, x, e);
            }
            assert forall|p: (Seq<char>, Seq<char>)| #[trigger] u.linked.contains(p) == (t.linked.contains(p) || p
                == pair) by {
                model::lemma_pushed(t.linked, pair, p);
            }
            assert(u.graph.edges[t.graph.edges.len() as int] == x);
            assert(consumes(u.graph, consumer, o.uid));
            assert forall|p: (Seq<char>, Seq<char>)| #[trigger] u.linked.contains(p) implies s.linked.contains(p)
                || consumes(u.graph, p.0, p.1) by {
                if t.linked.contains(p) && !s.linked.contains(p) {
                    let i = choose|i: int|
                        0 <= i < t.graph.edges.len() && (#[trigger] t.graph.edges[i]).src == p.0
                            && t.graph.edges[i].dst == p.1 && t.graph.edges[i].kind == EdgeKind::Consumes;
                    assert(u.graph.edges[i] == t.graph.edges[i]);
                }
            }
        }
        assert forall|i: int|
            i < n && #[trigger] owned_by(owners, link, i) && s.graph.has(owners[i].uid) implies u.linked.contains(
            (consumer, owners[i].uid),
        ) by {
            if i < n - 1 {
                assert(t.linked.contains((consumer, owners[i].uid)));
            }
        }
    }
}

proof fn lemma_links_made(
    s: LinkState,
    consumer: Seq<char>,
    links: Seq<ConsumerLink>,
    owners: Seq<OwnerView>,
    n: nat,
)
    requires
        n <= links.len(),
        s.graph.has(consumer),
    ensures
        made(
            s,
            contract::with_links(s, consumer, links, owners, n),
            owners,
            |c: Seq<char>, l: ConsumerLink| c == consumer && exists|m: int| 0 <= m < n && l == #[trigger] links[m],
        ),
    decreases n,
{
    let r = |c: Seq<char>, l: ConsumerLink| c == consumer && exists|m: int| 0 <= m < n && l == #[trigger] links[m];
    if n > 0 {
        let k = (n - 1) as nat;
        let p = |c: Seq<char>, l: ConsumerLink|
            c == consumer && exists|m: int| 0 <= m < k && l == #[trigger] links[m];
        lemma_links_made(s, consumer, links, owners, k);
        let t = contract::with_links(s, consumer, links, owners, k);
        let link = links[n - 1];
        lemma_owners_made(t, consumer, link, owners, owners.len());
        let u = contract::with_links(s, consumer, links, owners, n);
        let q = |c: Seq<char>, l: ConsumerLink| c == consumer && l == link;
        assert(forall|v: Seq<char>| #[trigger] t.graph.has(v) == s.graph.has(v));
        assert(made(t, u, owners, q)) by {
            assert forall|c: Seq<char>, l: ConsumerLink, i: int|
                q(c, l) && t.graph.has(c) && #[trigger] owned_by(owners, l, i) && t.graph.has(owners[i].uid) implies #[trigger] u.linked.contains(
            (c, owners[i].uid)) by {}
            assert forall|e: EdgeView| #[trigger] u.graph.edges.contains(e) implies t.graph.edges.contains(e)
                || offered_edge(t.graph, owners, q, e) by {
                if !t.graph.edges.contains(e) {
                    let i = choose|i: int| #[trigger] link_edge(owners, consumer, link, i, e);
                    assert(q(e.src, link) && link_edge(owners, e.src, link, i, e));
                }
            }
        }
        assert forall|c: Seq<char>, l: ConsumerLink| #[trigger] r(c, l) == (p(c, l) || q(c, l)) by {
            if r(c, l) {
                let m = choose|m: int| 0 <= m < n && l == #[trigger] links[m];
                assert(m < k || m == n - 1);
            }
            if p(c, l) {
                let m = choose|m: int| 0 <= m < k && l == #[trigger] links[m];
                assert(links[m] == l);
            }
        }
        lemma_made_more(s, t, u, owners, p, q, r);
    } else {
        assert(made(s, s, owners, r));
    }
}

proof fn lemma_consumer_made(s: LinkState, consumer: Seq<char>, links: Seq<ConsumerLink>, owners: Seq<OwnerView>)
    ensures
        made(
            s,
            contract::with_consumer(s, consumer, links, owners),
            owners,
            |c: Seq<char>, l: ConsumerLink|
                c == consumer && exists|m: int| 0 <= m < links.len() && l == #[trigger] links[m],
        ),
{
    if s.graph.has(consumer) {
        lemma_links_made(s, consumer, links, owners, links.len());
    }
}

/// Whether one of the first `n` calls of a file offers a link to a consumer.
pub open spec fn call_offers(
    repo: Seq<char>,
    path: Seq<char>,
    signals: Seq<CallSignal>,
    n: int,
    c: Seq<char>,
    link: ConsumerLink,
) -> bool {
    exists|k: int, m: int|
        0 <= k < n && 0 <= m < signals[k].links@.len() && c == around(repo, path, signals[k].enclosing_fqn@) && link
            == #[trigger] signals[k].links@[m]
}

/// Whether one of the first `n` root fields offers a link.
pub open spec fn field_offers(fields: Seq<Vec<ConsumerLink>>, n: int, link: ConsumerLink) -> bool {
    exists|k: int, m: int| 0 <= k < n && 0 <= m < fields[k]@.len() && link == #[trigger] fields[k]@[m]
}

/// Whether a document offers a link to a consumer: not where it is interpolated or was not read.
pub open spec fn doc_offers(repo: Seq<char>, path: Seq<char>, doc: DocSignal, c: Seq<char>, link: ConsumerLink) -> bool {
    &&& doc.interpolation_free
    &&& c == around(repo, path, doc.enclosing_fqn@)
    &&& doc.reading matches DocReading::Parsed { fields, .. } && field_offers(fields@, fields@.len() as int, link)
}

/// Whether a file offers a link to a consumer: by an HTTP call, a call or a document.
pub open spec fn file_offers(repo: Seq<char>, f: FileSignals, c: Seq<char>, link: ConsumerLink) -> bool {
    ||| call_offers(repo, f.path@, f.http@, f.http@.len() as int, c, link)
    ||| call_offers(repo, f.path@, f.calls@, f.calls@.len() as int, c, link)
    ||| exists|k: int| 0 <= k < f.docs@.len() && doc_offers(repo, f.path@, #[trigger] f.docs@[k], c, link)
}

proof fn lemma_signals_made(
    s: LinkState,
    repo: Seq<char>,
    path: Seq<char>,
    signals: Seq<CallSignal>,
    owners: Seq<OwnerView>,
    n: nat,
)
    requires
        n <= signals.len(),
    ensures
        made(
            s,
            contract::with_signals(s, repo, path, signals, owners, n),
            owners,
            |c: Seq<char>, l: ConsumerLink| call_offers(repo, path, signals, n as int, c, l),
        ),
    decreases n,
{
    let r = |c: Seq<char>, l: ConsumerLink| call_offers(repo, path, signals, n as int, c, l);
    if n > 0 {
        let k = (n - 1) as nat;
        let p = |c: Seq<char>, l: ConsumerLink| call_offers(repo, path, signals, k as int, c, l);
        lemma_signals_made(s, repo, path, signals, owners, k);
        let t = contract::with_signals(s, repo, path, signals, owners, k);
        let sig = signals[n - 1];
        let consumer = around(repo, path, sig.enclosing_fqn@);
        lemma_consumer_made(t, consumer, sig.links@, owners);
        let q = |c: Seq<char>, l: ConsumerLink|
            c == consumer && exists|m: int| 0 <= m < sig.links@.len() && l == #[trigger] sig.links@[m];
        let u = contract::with_signals(s, repo, path, signals, owners, n);
        assert forall|c: Seq<char>, l: ConsumerLink| #[trigger] r(c, l) == (p(c, l) || q(c, l)) by {
            if r(c, l) {
                let (a, m) = choose|a: int, m: int|
                    0 <= a < n && 0 <= m < signals[a].links@.len() && c == around(
                        repo,
                        path,
                        signals[a].enclosing_fqn@,
                    ) && l == #[trigger] signals[a].links@[m];
                if a < k {
                    assert(l == signals[a].links@[m]);
                } else {
                    assert(l == sig.links@[m]);
                }
            }
            if p(c, l) {
                let (a, m) = choose|a: int, m: int|
                    0 <= a < k && 0 <= m < signals[a].links@.len() && c == around(
                        repo,
                        path,
                        signals[a].enclosing_fqn@,
                    ) && l == #[trigger] signals[a].links@[m];
                assert(l == signals[a].links@[m]);
            }
            if q(c, l) {
                let m = choose|m: int| 0 <= m < sig.links@.len() && l == #[trigger] sig.links@[m];
                assert(l == signals[n - 1].links@[m]);
            }
        }
        lemma_made_more(s, t, u, owners, p, q, r);
    } else {
        assert(made(s, s, owners, r));
    }
}

proof fn lemma_fields_made(
    s: LinkState,
    consumer: Seq<char>,
    fields: Seq<Vec<ConsumerLink>>,
    owners: Seq<OwnerView>,
    n: nat,
)
    requires
        n <= fields.len(),
    ensures
        made(
            s,
            contract::with_fields(s, consumer, fields, owners, n),
            owners,
            |c: Seq<char>, l: ConsumerLink| c == consumer && field_offers(fields, n as int, l),
        ),
    decreases n,
{
    let r = |c: Seq<char>, l: ConsumerLink| c == consumer && field_offers(fields, n as int, l);
    if n > 0 {
        let k = (n - 1) as nat;
        let p = |c: Seq<char>, l: ConsumerLink| c == consumer && field_offers(fields, k as int, l);
        lemma_fields_made(s, consumer, fields, owners, k);
        let t = contract::with_fields(s, consumer, fields, owners, k);
        let links = fields[n - 1]@;
        lemma_consumer_made(t, consumer, links, owners);
        let q = |c: Seq<char>, l: ConsumerLink|
            c == consumer && exists|m: int| 0 <= m < links.len() && l == #[trigger] links[m];
        let u = contract::with_fields(s, consumer, fields, owners, n);
        assert forall|c: Seq<char>, l: ConsumerLink| #[trigger] r(c, l) == (p(c, l) || q(c, l)) by {
            if r(c, l) {
                let (a, m) = choose|a: int, m: int|
                    0 <= a < n && 0 <= m < fields[a]@.len() && l == #[trigger] fields[a]@[m];
                if a < k {
                    assert(l == fields[a]@[m]);
                } else {
                    assert(l == links[m]);
                }
            }
            if p(c, l) {
                let (a, m) = choose|a: int, m: int|
                    0 <= a < k && 0 <= m < fields[a]@.len() && l == #[trigger] fields[a]@[m];
                assert(l == fields[a]@[m]);
            }
            if q(c, l) {
                let m = choose|m: int| 0 <= m < links.len() && l == #[trigger] links[m];
                assert(l == fields[n - 1]@[m]);
            }
        }
        lemma_made_more(s, t, u, owners, p, q, r);
    } else {
        assert(made(s, s, owners, r));
    }
}

proof fn lemma_docs_made(
    s: LinkState,
    repo: Seq<char>,
    path: Seq<char>,
    docs: Seq<DocSignal>,
    owners: Seq<OwnerView>,
    n: nat,
)
    requires
        n <= docs.len(),
    ensures
        made(
            s,
            contract::with_docs(s, repo, path, docs, owners, n),
            owners,
            |c: Seq<char>, l: ConsumerLink|
                exists|k: int| 0 <= k < n && doc_offers(repo, path, #[trigger] docs[k], c, l),
        ),
    decreases n,
{
    let r = |c: Seq<char>, l: ConsumerLink|
        exists|k: int| 0 <= k < n && doc_offers(repo, path, #[trigger] docs[k], c, l);
    if n > 0 {
        let a = (n - 1) as nat;
        let p = |c: Seq<char>, l: ConsumerLink|
            exists|k: int| 0 <= k < a && doc_offers(repo, path, #[trigger] docs[k], c, l);
        lemma_docs_made(s, repo, path, docs, owners, a);
        let t = contract::with_docs(s, repo, path, docs, owners, a);
        let u = contract::with_docs(s, repo, path, docs, owners, n);
        let doc = docs[n - 1];
        let q = |c: Seq<char>, l: ConsumerLink| doc_offers(repo, path, doc, c, l);
        assert(made(t, u, owners, q)) by {
            match doc.reading {
                DocReading::Parsed { fields, .. } => {
                    if doc.interpolation_free {
                        let consumer = around(repo, path, doc.enclosing_fqn@);
                        lemma_fields_made(t, consumer, fields@, owners, fields@.len());
                        lemma_made_same(
                            t,
                            u,
                            owners,
                            |c: Seq<char>, l: ConsumerLink|
                                c == consumer && field_offers(fields@, fields@.len() as int, l),
                            q,
                        );
                    }
                },
                DocReading::Unparsed => {},
            }
        }
        assert forall|c: Seq<char>, l: ConsumerLink| #[trigger] r(c, l) == (p(c, l) || q(c, l)) by {
            if r(c, l) {
                let k = choose|k: int| 0 <= k < n && doc_offers(repo, path, #[trigger] docs[k], c, l);
                if k < a {
                    assert(doc_offers(repo, path, docs[k], c, l));
                }
            }
            if p(c, l) {
                let k = choose|k: int| 0 <= k < a && doc_offers(repo, path, #[trigger] docs[k], c, l);
                assert(doc_offers(repo, path, docs[k], c, l));
            }
            if q(c, l) {
                assert(doc_offers(repo, path, docs[n - 1], c, l));
            }
        }
        lemma_made_more(s, t, u, owners, p, q, r);
    } else {
        assert(made(s, s, owners, r));
    }
}

proof fn lemma_file_made(s: LinkState, repo: Seq<char>, f: FileSignals, owners: Seq<OwnerView>)
    ensures
        made(
            s,
            contract::with_file_signals(s, repo, f, owners),
            owners,
            |c: Seq<char>, l: ConsumerLink| file_offers(repo, f, c, l),
        ),
{
    let path = f.path@;
    let a = contract::with_signals(s, repo, path, f.http@, owners, f.http@.len());
    let b = contract::with_signals(a, repo, path, f.calls@, owners, f.calls@.len());
    let t = contract::with_file_signals(s, repo, f, owners);
    lemma_signals_made(s, repo, path, f.http@, owners, f.http@.len());
    lemma_signals_made(a, repo, path, f.calls@, owners, f.calls@.len());
    lemma_docs_made(b, repo, path, f.docs@, owners, f.docs@.len());
    let p = |c: Seq<char>, l: ConsumerLink| call_offers(repo, path, f.http@, f.http@.len() as int, c, l);
    let q = |c: Seq<char>, l: ConsumerLink| call_offers(repo, path, f.calls@, f.calls@.len() as int, c, l);
    let r = |c: Seq<char>, l: ConsumerLink| p(c, l) || q(c, l);
    let d = |c: Seq<char>, l: ConsumerLink|
        exists|k: int| 0 <= k < f.docs@.len() && doc_offers(repo, path, #[trigger] f.docs@[k], c, l);
    lemma_made_more(s, a, b, owners, p, q, r);
    lemma_made_more(s, b, t, owners, r, d, |c: Seq<char>, l: ConsumerLink| file_offers(repo, f, c, l));
}

/// Linking consumers makes every link that is offered between nodes, to every owner of its key, and
/// makes no other edge; a pair of nodes that was linked before gets no second edge.
pub proof fn law_consumers_made(
    s: LinkState,
    repo: Seq<char>,
    files: Seq<FileSignals>,
    owners: Seq<OwnerView>,
    n: nat,
)
    requires
        n <= files.len(),
    ensures
        made(
            s,
            contract::with_consumers(s, repo, files, owners, n),
            owners,
            |c: Seq<char>, l: ConsumerLink|
                exists|f: int| 0 <= f < n && file_offers(repo, #[trigger] files[f], c, l),
        ),
    decreases n,
{
    let r = |c: Seq<char>, l: ConsumerLink|
        exists|f: int| 0 <= f < n && file_offers(repo, #[trigger] files[f], c, l);
    if n > 0 {
        let k = (n - 1) as nat;
        let p = |c: Seq<char>, l: ConsumerLink|
            exists|f: int| 0 <= f < k && file_offers(repo, #[trigger] files[f], c, l);
        law_consumers_made(s, repo, files, owners, k);
        let t = contract::with_consumers(s, repo, files, owners, k);
        let u = contract::with_consumers(s, repo, files, owners, n);
        lemma_file_made(t, repo, files[n - 1], owners);
        let q = |c: Seq<char>, l: ConsumerLink| file_offers(repo, files[n - 1], c, l);
        assert forall|c: Seq<char>, l: ConsumerLink| #[trigger] r(c, l) == (p(c, l) || q(c, l)) by {
            if r(c, l) {
                let f = choose|f: int| 0 <= f < n && file_offers(repo, #[trigger] files[f], c, l);
                assert(f < k || f == n - 1);
            }
            if p(c, l) {
                let f = choose|f: int| 0 <= f < k && file_offers(repo, #[trigger] files[f], c, l);
                assert(file_offers(repo, files[f], c, l));
            }
        }
        lemma_made_more(s, t, u, owners, p, q, r);
    } else {
        assert(made(s, s, owners, r));
    }
}

// ----------------------------------------------------------------------------------------------
// The plane
// ----------------------------------------------------------------------------------------------

/// The node of an operation: an operation or a GraphQL field, named by its id, else by its method and
/// its path.
pub open spec fn op_fact(repo: Seq<char>, op: OperationDef) -> NodeView {
    NodeView {
        uid: op_uid(repo, op),
        kind: if op.format == ContractFormat::Graphql {
            NodeKind::GraphqlField
        } else {
            NodeKind::ApiOperation
        },
        name: match op.operation_id {
            Some(id) => id@,
            None => op.method@ + seq![' '] + op.path@,
        },
        fqn: op.key@,
        path: op.path@,
        span: Span { start_line: 0, end_line: 0, start_col: 0, end_col: 0 },
        provenance: Provenance::Extracted,
        confidence: 1_000_000_000,
    }
}

/// Whether operation `o` has its identifier alone, or is the last one that has it.
pub open spec fn is_last_of_uid(repo: Seq<char>, ops: Seq<OperationDef>, o: int) -> bool {
    &&& 0 <= o < ops.len()
    &&& forall|k: int| o < k < ops.len() ==> op_uid(repo, #[trigger] ops[k]) != op_uid(repo, ops[o])
}

proof fn lemma_op_fact(repo: Seq<char>, op: OperationDef)
    ensures
        contract::operation_node(contract::local_uid(repo, op), op) == op_fact(repo, op),
{
    reveal_strlit(" ");
    assert(" "@ =~= seq![' ']);
}

proof fn lemma_operations(g: GraphView, repo: Seq<char>, ops: Seq<OperationDef>, n: nat)
    requires
        n <= ops.len(),
    ensures
        ({
            let h = contract::with_operations(g, repo, ops, n);
            &&& h.edges == g.edges
            &&& forall|u: Seq<char>| #[trigger]
                h.has(u) == (g.has(u) || exists|o: int| 0 <= o < n && u == op_uid(repo, #[trigger] ops[o]))
            &&& forall|x: NodeView| #[trigger]
                h.nodes.contains(x) ==> g.nodes.contains(x) || exists|o: int|
                    0 <= o < n && x == op_fact(repo, #[trigger] ops[o])
            &&& forall|x: NodeView| #[trigger]
                g.nodes.contains(x) && (forall|o: int| 0 <= o < n ==> x.uid != op_uid(repo, #[trigger] ops[o]))
                    ==> h.nodes.contains(x)
            &&& forall|o: int|
                0 <= o < n && (forall|k: int| o < k < n ==> op_uid(repo, #[trigger] ops[k]) != op_uid(repo, ops[o]))
                    ==> h.nodes.contains(op_fact(repo, #[trigger] ops[o]))
        }),
    decreases n,
{
    if n > 0 {
        let m = (n - 1) as nat;
        let last = n - 1;
        lemma_operations(g, repo, ops, m);
        let b = contract::with_operations(g, repo, ops, m);
        let h = contract::with_operations(g, repo, ops, n);
        let node = op_fact(repo, ops[last]);
        lemma_op_fact(repo, ops[last]);
        model::law_with_node(b, node);
        model::lemma_noded(b, node);
        assert(h == b.with_node(node));
        assert forall|u: Seq<char>| #[trigger] h.has(u) == (g.has(u) || exists|o: int|
            0 <= o < n && u == op_uid(repo, #[trigger] ops[o])) by {
            if exists|o: int| 0 <= o < n && u == op_uid(repo, #[trigger] ops[o]) {
                let o = choose|o: int| 0 <= o < n && u == op_uid(repo, #[trigger] ops[o]);
                assert(o < m || o == last);
            }
        }
        assert forall|o: int|
            0 <= o < n && (forall|k: int| o < k < n ==> op_uid(repo, #[trigger] ops[k]) != op_uid(repo, ops[o])) implies h.nodes.contains(
        op_fact(repo, #[trigger] ops[o])) by {
            if o < last {
                assert(op_uid(repo, ops[last]) != op_uid(repo, ops[o]));
                assert(b.nodes.contains(op_fact(repo, ops[o])));
            }
        }
        assert forall|x: NodeView| #[trigger]
            g.nodes.contains(x) && (forall|o: int| 0 <= o < n ==> x.uid != op_uid(repo, #[trigger] ops[o])) implies h.nodes.contains(
        x) by {
            assert(x.uid != op_uid(repo, ops[last]));
            assert(b.nodes.contains(x));
        }
    }
}

/// Whether operation `o` is the one that the key of a link leads to: the first of its format and key.
pub open spec fn is_target(ops: Seq<OperationDef>, link: ConsumerLink, o: int) -> bool {
    &&& 0 <= o < ops.len()
    &&& ops[o].format == link.format
    &&& ops[o].key@ == link.op_key@
    &&& forall|k: int| 0 <= k < o ==> (#[trigger] ops[k]).format != link.format || ops[k].key@ != link.op_key@
}

/// Whether an edge is that of a link of a consumer to the operation of its key, as sure as the link.
pub open spec fn consumer_edge(
    repo: Seq<char>,
    ops: Seq<OperationDef>,
    link: ConsumerLink,
    o: int,
    e: EdgeView,
) -> bool {
    &&& is_target(ops, link, o)
    &&& e.dst == op_uid(repo, ops[o])
    &&& e.kind == EdgeKind::Consumes
    &&& e.provenance == link.provenance
    &&& link.provenance == Provenance::Ambiguous ==> e.confidence <= 390_000_000 && (e.confidence == link.confidence
        || (e.confidence == 390_000_000 && link.confidence > 390_000_000))
    &&& link.provenance == Provenance::Extracted ==> 950_000_000 <= e.confidence <= 1_000_000_000 && (e.confidence
        == link.confidence || (e.confidence == 950_000_000 && link.confidence < 950_000_000) || (e.confidence
        == 1_000_000_000 && link.confidence > 1_000_000_000))
    &&& link.provenance != Provenance::Ambiguous && link.provenance != Provenance::Extracted ==> e.confidence
        <= 800_000_000 && (e.confidence == link.confidence || (e.confidence == 800_000_000 && link.confidence
        > 800_000_000))
}

spec fn owner_at(repo: Seq<char>, ops: Seq<OperationDef>, o: int) -> OwnerView {
    OwnerView { format: ops[o].format, key: ops[o].key@, uid: op_uid(repo, ops[o]) }
}

spec fn first_of_key(ops: Seq<OperationDef>, o: int) -> bool {
    forall|k: int| 0 <= k < o ==> (#[trigger] ops[k]).format != ops[o].format || ops[k].key@ != ops[o].key@
}

proof fn lemma_local_owners(repo: Seq<char>, ops: Seq<OperationDef>, n: nat)
    requires
        n <= ops.len(),
    ensures
        ({
            let owners = contract::local_owners(repo, ops, n);
            &&& forall|i: int|
                0 <= i < owners.len() ==> exists|o: int|
                    0 <= o < n && first_of_key(ops, o) && #[trigger] owners[i] == #[trigger] owner_at(repo, ops, o)
            &&& forall|o: int|
                0 <= o < n && #[trigger] first_of_key(ops, o) ==> owners.contains(owner_at(repo, ops, o))
            &&& forall|i: int, k: int|
                0 <= i < k < owners.len() ==> (#[trigger] owners[i]).format != (#[trigger] owners[k]).format
                    || owners[i].key != owners[k].key
        }),
    decreases n,
{
    if n > 0 {
        let m = (n - 1) as nat;
        let last = n - 1;
        lemma_local_owners(repo, ops, m);
        let rest = contract::local_owners(repo, ops, m);
        let owners = contract::local_owners(repo, ops, n);
        let op = ops[last];
        let own = owner_at(repo, ops, last);
        if contract::has_owner(rest, op.format, op.key@) {
            let i = choose|i: int|
                0 <= i < rest.len() && (#[trigger] rest[i]).format == op.format && rest[i].key == op.key@;
            let o = choose|o: int|
                0 <= o < m && first_of_key(ops, o) && rest[i] == #[trigger] owner_at(repo, ops, o);
            assert(ops[o].format == op.format && ops[o].key@ == op.key@);
            assert(!first_of_key(ops, last));
        } else {
            assert(first_of_key(ops, last)) by {
                if !first_of_key(ops, last) {
                    let o = lemma_least_of_key(ops, last);
                    assert(rest.contains(owner_at(repo, ops, o)));
                    let i = choose|i: int| 0 <= i < rest.len() && rest[i] == owner_at(repo, ops, o);
                    assert(rest[i].format == op.format && rest[i].key == op.key@);
                }
            }
            assert(owners == rest.push(own));
            assert forall|i: int| 0 <= i < owners.len() implies exists|o: int|
                0 <= o < n && first_of_key(ops, o) && #[trigger] owners[i] == #[trigger] owner_at(repo, ops, o) by {
                if i < rest.len() {
                    assert(owners[i] == rest[i]);
                    let o = choose|o: int|
                        0 <= o < m && first_of_key(ops, o) && rest[i] == #[trigger] owner_at(repo, ops, o);
                    assert(owners[i] == owner_at(repo, ops, o));
                } else {
                    assert(owners[i] == owner_at(repo, ops, last));
                }
            }
            assert forall|o: int| 0 <= o < n && #[trigger] first_of_key(ops, o) implies owners.contains(
                owner_at(repo, ops, o),
            ) by {
                model::lemma_pushed(rest, own, owner_at(repo, ops, o));
            }
        }
    }
}

proof fn lemma_least_of_key(ops: Seq<OperationDef>, i: int) -> (o: int)
    requires
        0 <= i < ops.len(),
    ensures
        0 <= o <= i,
        first_of_key(ops, o),
        ops[o].format == ops[i].format,
        ops[o].key@ == ops[i].key@,
    decreases i,
{
    if first_of_key(ops, i) {
        i
    } else {
        let k = choose|k: int|
            0 <= k < i && (#[trigger] ops[k]).format == ops[i].format && ops[k].key@ == ops[i].key@;
        lemma_least_of_key(ops, k)
    }
}

/// Whether one of the files offers a link to a consumer.
pub open spec fn offers(repo: Seq<char>, signals: Seq<FileSignals>, c: Seq<char>, link: ConsumerLink) -> bool {
    exists|f: int| 0 <= f < signals.len() && file_offers(repo, #[trigger] signals[f], c, link)
}

/// Whether an edge comes of an offered link between two nodes.
pub open spec fn link_gives(
    g: GraphView,
    repo: Seq<char>,
    ops: Seq<OperationDef>,
    signals: Seq<FileSignals>,
    e: EdgeView,
) -> bool {
    exists|link: ConsumerLink, o: int|
        offers(repo, signals, e.src, link) && g.has(e.src) && g.has(e.dst) && #[trigger] consumer_edge(
            repo,
            ops,
            link,
            o,
            e,
        )
}

/// The nodes of the contract plane: every operation is one, with its kind, name, key and path, and
/// nothing else is added or changed.
pub proof fn law_contract_nodes(
    g: GraphView,
    repo: Seq<char>,
    files: Seq<FileEntry>,
    ops: Seq<OperationDef>,
    signals: Seq<FileSignals>,
)
    ensures
        ({
            let h = contract::contract_plane(g, repo, files, ops, signals);
            &&& forall|o: int| 0 <= o < ops.len() ==> h.has(op_uid(repo, #[trigger] ops[o]))
            &&& forall|o: int| #[trigger]
                is_last_of_uid(repo, ops, o) ==> h.nodes.contains(op_fact(repo, ops[o]))
            &&& forall|x: NodeView| #[trigger]
                h.nodes.contains(x) ==> g.nodes.contains(x) || exists|o: int|
                    0 <= o < ops.len() && x == op_fact(repo, #[trigger] ops[o])
            &&& forall|x: NodeView| #[trigger]
                g.nodes.contains(x) && (forall|o: int|
                    0 <= o < ops.len() ==> x.uid != op_uid(repo, #[trigger] ops[o])) ==> h.nodes.contains(x)
        }),
{
    let p = lemma_plane(g, repo, files, ops, signals);
    lemma_operations(g, repo, ops, ops.len());
    let h = contract::contract_plane(g, repo, files, ops, signals);
    assert(forall|u: Seq<char>| #[trigger] h.has(u) == p.has(u));
}

/// Some edge.
spec fn some_edge(repo: Seq<char>) -> EdgeView {
    EdgeView { src: repo, dst: repo, kind: EdgeKind::Calls, provenance: Provenance::Extracted, confidence: 0 }
}

/// The graph with the operations has the nodes of the plane.
proof fn lemma_plane(
    g: GraphView,
    repo: Seq<char>,
    files: Seq<FileEntry>,
    ops: Seq<OperationDef>,
    signals: Seq<FileSignals>,
) -> (p: GraphView)
    ensures
        p == contract::with_operations(g, repo, ops, ops.len()),
        p.nodes == contract::contract_plane(g, repo, files, ops, signals).nodes,
        p.edges == g.edges,
{
    let p = contract::with_operations(g, repo, ops, ops.len());
    lemma_operations(g, repo, ops, ops.len());
    let a = contract::with_all_routes(p, repo, files, ops, files.len());
    let b = contract::with_all_resolvers(a, repo, files, ops, files.len());
    let e: EdgeView = some_edge(repo);
    lemma_all_routes(p, p, repo, files, ops, files.len(), e);
    lemma_all_resolvers(p, a, repo, files, ops, files.len(), e);
    law_consumers_made(
        LinkState { graph: b, linked: Seq::empty() },
        repo,
        signals,
        contract::local_owners(repo, ops, ops.len()),
        signals.len(),
    );
    p
}

proof fn lemma_gives_same(
    g: GraphView,
    h: GraphView,
    repo: Seq<char>,
    files: Seq<FileEntry>,
    ops: Seq<OperationDef>,
    e: EdgeView,
)
    requires
        g.nodes == h.nodes,
    ensures
        forall|f: int, r: int, o: int| #[trigger]
            route_gives(g, repo, files, ops, f, r, o, e) == route_gives(h, repo, files, ops, f, r, o, e),
        forall|f: int, r: int, o: int| #[trigger]
            resolver_gives(g, repo, files, ops, f, r, o, e) == resolver_gives(h, repo, files, ops, f, r, o, e),
{
    assert(forall|u: Seq<char>| #[trigger] h.has(u) == g.has(u));
    assert forall|f: int, r: int, o: int| #[trigger]
        route_gives(g, repo, files, ops, f, r, o, e) == route_gives(h, repo, files, ops, f, r, o, e) by {
        let route = files[f].file.routes@[r];
        lemma_producer(g, repo, files[f].path@, files[f].file.symbols@, route.handler_name, route.enclosing_fqn@, e.src);
        lemma_producer(h, repo, files[f].path@, files[f].file.symbols@, route.handler_name, route.enclosing_fqn@, e.src);
    }
    assert forall|f: int, r: int, o: int| #[trigger]
        resolver_gives(g, repo, files, ops, f, r, o, e) == resolver_gives(h, repo, files, ops, f, r, o, e) by {
        let entry = files[f].file.resolver_entries@[r];
        lemma_producer(g, repo, files[f].path@, files[f].file.symbols@, entry.handler_name, entry.enclosing_fqn@, e.src);
        lemma_producer(h, repo, files[f].path@, files[f].file.symbols@, entry.handler_name, entry.enclosing_fqn@, e.src);
    }
}

/// What a repository produces: an edge that is no consumer edge is one of the contract plane exactly if
/// the graph had it, or a route or a resolver of a file gives it. A route gives edges to the operations
/// of its normalized path and its method alone, or of its path where it is declared for any method.
pub proof fn law_contract_producers(
    g: GraphView,
    repo: Seq<char>,
    files: Seq<FileEntry>,
    ops: Seq<OperationDef>,
    signals: Seq<FileSignals>,
    e: EdgeView,
)
    requires
        e.kind != EdgeKind::Consumes,
    ensures
        ({
            let h = contract::contract_plane(g, repo, files, ops, signals);
            h.edges.contains(e) <==> g.edges.contains(e) || (exists|f: int, r: int, o: int| #[trigger]
                route_gives(h, repo, files, ops, f, r, o, e)) || (exists|f: int, r: int, o: int| #[trigger]
                resolver_gives(h, repo, files, ops, f, r, o, e))
        }),
{
    let h = contract::contract_plane(g, repo, files, ops, signals);
    let p = lemma_plane(g, repo, files, ops, signals);
    let a = contract::with_all_routes(p, repo, files, ops, files.len());
    let b = contract::with_all_resolvers(a, repo, files, ops, files.len());
    lemma_all_routes(p, p, repo, files, ops, files.len(), e);
    lemma_all_resolvers(p, a, repo, files, ops, files.len(), e);
    lemma_gives_same(p, h, repo, files, ops, e);
    law_consumers_made(
        LinkState { graph: b, linked: Seq::empty() },
        repo,
        signals,
        contract::local_owners(repo, ops, ops.len()),
        signals.len(),
    );
    if h.edges.contains(e) {
        assert(b.edges.contains(e));
        if !g.edges.contains(e) {
            if a.edges.contains(e) {
                let (f, r, o) = choose|f: int, r: int, o: int|
                    f < files.len() && #[trigger] route_gives(p, repo, files, ops, f, r, o, e);
                assert(route_gives(h, repo, files, ops, f, r, o, e));
            } else {
                let (f, r, o) = choose|f: int, r: int, o: int|
                    f < files.len() && #[trigger] resolver_gives(p, repo, files, ops, f, r, o, e);
                assert(resolver_gives(h, repo, files, ops, f, r, o, e));
            }
        }
    }
    if exists|f: int, r: int, o: int| #[trigger] route_gives(h, repo, files, ops, f, r, o, e) {
        let (f, r, o) = choose|f: int, r: int, o: int| #[trigger] route_gives(h, repo, files, ops, f, r, o, e);
        assert(f < files.len() && route_gives(p, repo, files, ops, f, r, o, e));
        assert(b.edges.contains(e));
    }
    if exists|f: int, r: int, o: int| #[trigger] resolver_gives(h, repo, files, ops, f, r, o, e) {
        let (f, r, o) = choose|f: int, r: int, o: int| #[trigger] resolver_gives(h, repo, files, ops, f, r, o, e);
        assert(f < files.len() && resolver_gives(p, repo, files, ops, f, r, o, e));
        assert(b.edges.contains(e));
    }
}

/// What a repository consumes: every link that its files offer between nodes has its consumer edge, to
/// the operation of its format and key, and every consumer edge that the graph did not have comes of
/// such a link.
pub proof fn law_contract_consumers(
    g: GraphView,
    repo: Seq<char>,
    files: Seq<FileEntry>,
    ops: Seq<OperationDef>,
    signals: Seq<FileSignals>,
)
    ensures
        ({
            let h = contract::contract_plane(g, repo, files, ops, signals);
            &&& forall|e: EdgeView| #[trigger]
                h.edges.contains(e) && e.kind == EdgeKind::Consumes ==> g.edges.contains(e) || link_gives(
                    h,
                    repo,
                    ops,
                    signals,
                    e,
                )
            &&& forall|e: EdgeView| #[trigger] g.edges.contains(e) ==> h.edges.contains(e)
            &&& forall|c: Seq<char>, link: ConsumerLink, o: int|
                h.has(c) && #[trigger] offers(repo, signals, c, link) && #[trigger] is_target(ops, link, o) ==> consumes(
                    h,
                    c,
                    op_uid(repo, ops[o]),
                )
        }),
{
    let h = contract::contract_plane(g, repo, files, ops, signals);
    let p = lemma_plane(g, repo, files, ops, signals);
    law_contract_nodes(g, repo, files, ops, signals);
    let a = contract::with_all_routes(p, repo, files, ops, files.len());
    let b = contract::with_all_resolvers(a, repo, files, ops, files.len());
    let owners = contract::local_owners(repo, ops, ops.len());
    let s = LinkState { graph: b, linked: Seq::empty() };
    let t = contract::with_consumers(s, repo, signals, owners, signals.len());
    let offered = |c: Seq<char>, l: ConsumerLink|
        exists|f: int| 0 <= f < signals.len() && file_offers(repo, #[trigger] signals[f], c, l);
    law_consumers_made(s, repo, signals, owners, signals.len());
    lemma_local_owners(repo, ops, ops.len());
    let none: EdgeView = some_edge(repo);
    lemma_all_routes(p, p, repo, files, ops, files.len(), none);
    lemma_all_resolvers(p, a, repo, files, ops, files.len(), none);
    assert(forall|u: Seq<char>| #[trigger] h.has(u) == b.has(u));
    assert forall|e: EdgeView| #[trigger] g.edges.contains(e) implies h.edges.contains(e) by {
        lemma_all_routes(p, p, repo, files, ops, files.len(), e);
        lemma_all_resolvers(p, a, repo, files, ops, files.len(), e);
        assert(s.graph.edges.contains(e));
    }
    assert forall|e: EdgeView| #[trigger] h.edges.contains(e) && e.kind == EdgeKind::Consumes implies g.edges.contains(
        e,
    ) || link_gives(h, repo, ops, signals, e) by {
        lemma_all_routes(p, p, repo, files, ops, files.len(), e);
        lemma_all_resolvers(p, a, repo, files, ops, files.len(), e);
        assert(t.graph.edges.contains(e));
        if !b.edges.contains(e) {
            let (link, i) = choose|link: ConsumerLink, i: int|
                offered(e.src, link) && b.has(e.src) && b.has(e.dst) && #[trigger] link_edge(owners, e.src, link, i, e);
            let o = choose|o: int|
                0 <= o < ops.len() && first_of_key(ops, o) && owners[i] == #[trigger] owner_at(repo, ops, o);
            assert(is_target(ops, link, o));
            assert forall|k: int| #[trigger] owned_by(owners, link, k) implies k == i by {}
            assert(consumer_edge(repo, ops, link, o, e));
            assert(offers(repo, signals, e.src, link));
        }
    }
    assert forall|c: Seq<char>, link: ConsumerLink, o: int|
        h.has(c) && #[trigger] offers(repo, signals, c, link) && #[trigger] is_target(ops, link, o) implies consumes(
        h,
        c,
        op_uid(repo, ops[o]),
    ) by {
        assert(first_of_key(ops, o));
        assert(owners.contains(owner_at(repo, ops, o)));
        let i = choose|i: int| 0 <= i < owners.len() && owners[i] == owner_at(repo, ops, o);
        assert(owned_by(owners, link, i));
        assert(offered(c, link));
        assert(h.has(op_uid(repo, ops[o])));
        assert(t.linked.contains((c, owners[i].uid)));
        assert(!s.linked.contains((c, owners[i].uid)));
    }
}

} // verus!
