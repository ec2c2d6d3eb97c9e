//! What the code plane says of a repository, told by the symbols, imports and calls of its files.
use vstd::prelude::*;

use crate::analysis::{CallRef, FileEntry, ImportRef, ImportResolution, RawSymbol, SourceText};
use crate::code_plane;
use crate::code_plane::{CallableView, CoverageView, ScipSide};
use crate::model;
use crate::model::{EdgeKind, EdgeView, GraphView, NodeKind, NodeView, Provenance, Span};
use crate::order;
use crate::scip_merge::{ScipEntry, TargetView};
use crate::text;

verus! {

// ----------------------------------------------------------------------------------------------
// What a call can reach
// ----------------------------------------------------------------------------------------------

/// Whether an import brings in a name.
pub open spec fn brings(import: ImportRef, name: Seq<char>) -> bool {
    exists|i: int| 0 <= i < import.imported_names@.len() && (#[trigger] import.imported_names@[i])@ == name
}

/// Whether an import was resolved to a file of the repository.
pub open spec fn leads_to(import: ImportRef, path: Seq<char>) -> bool {
    import.resolution matches ImportResolution::Resolved(target) && target@ == path
}

/// Whether a name comes from a file: by the last import that brings it in from the repository.
pub open spec fn comes_from(imports: Seq<ImportRef>, name: Seq<char>, path: Seq<char>) -> bool {
    exists|m: int|
        0 <= m < imports.len() && leads_to(#[trigger] imports[m], path) && brings(imports[m], name) && forall|l: int|
            m < l < imports.len() && brings(#[trigger] imports[l], name) ==> !(imports[l].resolution is Resolved)
}

/// Whether a symbol belongs to the class that directly contains the member `fqn`.
pub open spec fn shares_class(fqn: Seq<char>, class: Seq<char>) -> bool {
    exists|last: Seq<char>| !last.contains('.') && fqn == #[trigger] (class + seq!['.'] + last)
}

/// Whether a call of file `f` can reach symbol `j` of file `k`, by names: a bare call any function or
/// method of that name in its own file or in the file that the name is imported from; a call on `this`
/// a method of that name in the class around the call; any other call every method of that name.
pub open spec fn can_reach(files: Seq<FileEntry>, f: int, call: CallRef, k: int, j: int) -> bool {
    let sym = files[k].file.symbols@[j];
    &&& 0 <= k < files.len()
    &&& 0 <= j < files[k].file.symbols@.len()
    &&& sym.name@ == call.callee_name@
    &&& match call.receiver {
        None => (sym.kind == NodeKind::Function || sym.kind == NodeKind::Method) && (k == f || comes_from(
            files[f].file.imports@,
            call.callee_name@,
            files[k].path@,
        )),
        Some(receiver) => sym.kind == NodeKind::Method && (receiver@ == "this"@ ==> k == f && (
        sym.container_fqn matches Some(class) && shares_class(call.enclosing_fqn@, class@))),
    }
}

/// The identifier of symbol `j` of file `k`.
pub open spec fn uid_at(repo: Seq<char>, files: Seq<FileEntry>, k: int, j: int) -> Seq<char> {
    model::uid_text("ts"@, repo, files[k].path@, files[k].file.symbols@[j].fqn@, ""@)
}

/// The node that makes a call: the symbol around it, else the module of the file.
pub open spec fn caller_of(repo: Seq<char>, f: FileEntry, call: CallRef) -> Seq<char> {
    model::uid_text(
        "ts"@,
        repo,
        f.path@,
        if call.enclosing_fqn@.len() == 0 {
            "<module>"@
        } else {
            call.enclosing_fqn@
        },
        ""@,
    )
}

/// Whether everything that a call can reach has this identifier.
pub open spec fn reaches_only(repo: Seq<char>, files: Seq<FileEntry>, f: int, call: CallRef, u: Seq<char>) -> bool {
    forall|k: int, j: int| #[trigger] can_reach(files, f, call, k, j) ==> uid_at(repo, files, k, j) == u
}

/// The edge of a call of file `f` to something that it can reach. A bare call is an inference where it
/// can reach one thing only, and a call on `this` always is; anything else is ambiguous.
pub open spec fn name_edge(repo: Seq<char>, files: Seq<FileEntry>, f: int, call: CallRef, dst: Seq<char>) -> EdgeView {
    let src = caller_of(repo, files[f], call);
    match call.receiver {
        None => if reaches_only(repo, files, f, call, dst) {
            EdgeView { src, dst, kind: EdgeKind::Calls, provenance: Provenance::Inferred, confidence: 800_000_000 }
        } else {
            EdgeView { src, dst, kind: EdgeKind::Calls, provenance: Provenance::Ambiguous, confidence: 350_000_000 }
        },
        Some(receiver) => if receiver@ == "this"@ {
            EdgeView { src, dst, kind: EdgeKind::Calls, provenance: Provenance::Inferred, confidence: 800_000_000 }
        } else {
            EdgeView { src, dst, kind: EdgeKind::Calls, provenance: Provenance::Ambiguous, confidence: 390_000_000 }
        },
    }
}

/// Whether an edge is that of a call of file `f`, given the precise target where there is one: the edge
/// to it, unless the call is to the caller itself; else an edge to each thing that it can reach.
pub open spec fn edge_of_call(
    repo: Seq<char>,
    files: Seq<FileEntry>,
    f: int,
    call: CallRef,
    precise: Option<TargetView>,
    e: EdgeView,
) -> bool {
    match precise {
        Some(t) => {
            let u = match t {
                TargetView::Node(u) => u,
                TargetView::External(u) => u,
            };
            u != caller_of(repo, files[f], call) && e == (EdgeView {
                src: caller_of(repo, files[f], call),
                dst: u,
                kind: EdgeKind::Calls,
                provenance: Provenance::Resolved,
                confidence: 970_000_000,
            })
        },
        None => exists|k: int, j: int| #[trigger]
            can_reach(files, f, call, k, j) && e == name_edge(repo, files, f, call, uid_at(repo, files, k, j)),
    }
}

proof fn lemma_import_target(imports: Seq<ImportRef>, n: nat, name: Seq<char>, path: Seq<char>)
    requires
        n <= imports.len(),
    ensures
        (code_plane::import_target(imports, n, name) == Some(path)) == comes_from(imports.take(n as int), name, path),
    decreases n,
{
    let part = imports.take(n as int);
    if n == 0 {
    } else {
        let m = (n - 1) as nat;
        let rest = imports.take(m as int);
        lemma_import_target(imports, m, name, path);
        let last = imports[n - 1];
        assert(part[n - 1] == last);
        assert(brings(last, name) == text::holds(last.imported_names@, name));
        assert forall|i: int| 0 <= i < m implies part[i] == rest[i] by {}
        if last.resolution is Resolved && brings(last, name) {
            if comes_from(part, name, path) {
                let w = choose|w: int|
                    0 <= w < part.len() && leads_to(#[trigger] part[w], path) && brings(part[w], name) && forall|l: int|
                        w < l < part.len() && brings(#[trigger] part[l], name) ==> !(part[l].resolution is Resolved);
                if w < n - 1 {
                    assert(brings(part[n - 1], name));
                }
            }
            if code_plane::import_target(imports, n, name) == Some(path) {
                assert(leads_to(part[n - 1], path));
            }
        } else {
            if comes_from(part, name, path) {
                let w = choose|w: int|
                    0 <= w < part.len() && leads_to(#[trigger] part[w], path) && brings(part[w], name) && forall|l: int|
                        w < l < part.len() && brings(#[trigger] part[l], name) ==> !(part[l].resolution is Resolved);
                assert(w < m);
                assert(leads_to(rest[w], path));
                assert forall|l: int| w < l < rest.len() && brings(#[trigger] rest[l], name) implies !(
                rest[l].resolution is Resolved) by {
                    assert(part[l] == rest[l]);
                }
            }
            if comes_from(rest, name, path) {
                let w = choose|w: int|
                    0 <= w < rest.len() && leads_to(#[trigger] rest[w], path) && brings(rest[w], name) && forall|l: int|
                        w < l < rest.len() && brings(#[trigger] rest[l], name) ==> !(rest[l].resolution is Resolved);
                assert(leads_to(part[w], path));
                assert forall|l: int| w < l < part.len() && brings(#[trigger] part[l], name) implies !(
                part[l].resolution is Resolved) by {
                    if l < m {
                        assert(part[l] == rest[l]);
                    }
                }
            }
        }
    }
}

proof fn lemma_enclosing_class(fqn: Seq<char>, class: Seq<char>)
    ensures
        (code_plane::enclosing_class(fqn) == Some(class)) == shares_class(fqn, class),
{
    text::lemma_last_position(fqn, '.');
    match text::last_position(fqn, '.') {
        Some(i) => {
            if code_plane::enclosing_class(fqn) == Some(class) {
                let last = fqn.skip(i + 1);
                assert(fqn =~= class + seq!['.'] + last);
                assert(!last.contains('.')) by {
                    if last.contains('.') {
                        let w = choose|w: int| 0 <= w < last.len() && last[w] == '.';
                        assert(fqn[i + 1 + w] == '.');
                    }
                }
            }
            if shares_class(fqn, class) {
                let last = choose|last: Seq<char>| !last.contains('.') && fqn == #[trigger] (class + seq!['.'] + last);
                assert(fqn[class.len() as int] == '.');
                if i > class.len() {
                    assert(last[i - class.len() - 1] == '.');
                }
                assert(i == class.len());
                assert(fqn.take(i) =~= class);
            }
        },
        None => {
            if shares_class(fqn, class) {
                let last = choose|last: Seq<char>| !last.contains('.') && fqn == #[trigger] (class + seq!['.'] + last);
                assert(fqn[class.len() as int] == '.');
                assert(fqn.contains('.'));
            }
        },
    }
}

/// Whether an entry of the call index is symbol `j` of file `k`.
spec fn entry_at(repo: Seq<char>, files: Seq<FileEntry>, c: CallableView, k: int, j: int) -> bool {
    let sym = files[k].file.symbols@[j];
    &&& 0 <= k < files.len()
    &&& 0 <= j < files[k].file.symbols@.len()
    &&& sym.kind == NodeKind::Function || sym.kind == NodeKind::Method
    &&& c.module == files[k].path@
    &&& c.name == sym.name@
    &&& c.method == (sym.kind == NodeKind::Method)
    &&& c.uid == uid_at(repo, files, k, j)
}

spec fn has_place(repo: Seq<char>, files: Seq<FileEntry>, c: CallableView, n: int, m: int) -> bool {
    exists|k: int, j: int| (k < n || (k == n && j < m)) && #[trigger] entry_at(repo, files, c, k, j)
}

spec fn has_entry(repo: Seq<char>, files: Seq<FileEntry>, index: Seq<CallableView>, k: int, j: int) -> bool {
    exists|i: int| 0 <= i < index.len() && entry_at(repo, files, #[trigger] index[i], k, j)
}

spec fn callable_at(files: Seq<FileEntry>, k: int, j: int) -> bool {
    &&& 0 <= k < files.len()
    &&& 0 <= j < files[k].file.symbols@.len()
    &&& files[k].file.symbols@[j].kind == NodeKind::Function || files[k].file.symbols@[j].kind == NodeKind::Method
}

spec fn indexed_upto(repo: Seq<char>, files: Seq<FileEntry>, index: Seq<CallableView>, n: int, m: int) -> bool {
    &&& forall|i: int| 0 <= i < index.len() ==> has_place(repo, files, #[trigger] index[i], n, m)
    &&& forall|k: int, j: int|
        #[trigger] callable_at(files, k, j) && (k < n || (k == n && j < m)) ==> has_entry(repo, files, index, k, j)
}

proof fn lemma_callables(repo: Seq<char>, files: Seq<FileEntry>, n: int, m: nat)
    requires
        0 <= n < files.len(),
        m <= files[n].file.symbols@.len(),
        indexed_upto(repo, files, code_plane::call_index(repo, files, n as nat), n, 0),
    ensures
        indexed_upto(
            repo,
            files,
            code_plane::callables_of(
                code_plane::call_index(repo, files, n as nat),
                repo,
                files[n].path@,
                files[n].file.symbols@,
                m,
            ),
            n,
            m as int,
        ),
    decreases m,
{
    if m > 0 {
        let base = code_plane::call_index(repo, files, n as nat);
        let syms = files[n].file.symbols@;
        lemma_callables(repo, files, n, (m - 1) as nat);
        let rest = code_plane::callables_of(base, repo, files[n].path@, syms, (m - 1) as nat);
        let all = code_plane::callables_of(base, repo, files[n].path@, syms, m);
        let sym = syms[m - 1];
        if sym.kind == NodeKind::Function || sym.kind == NodeKind::Method {
            assert(entry_at(repo, files, all[rest.len() as int], n, m - 1));
        }
        assert forall|i: int| 0 <= i < all.len() implies has_place(repo, files, #[trigger] all[i], n, m as int) by {
            if i < rest.len() {
                assert(all[i] == rest[i]);
                assert(has_place(repo, files, rest[i], n, m - 1));
                let (k, j) = choose|k: int, j: int|
                    (k < n || (k == n && j < m - 1)) && #[trigger] entry_at(repo, files, rest[i], k, j);
                assert(entry_at(repo, files, all[i], k, j));
            }
        }
        assert forall|k: int, j: int| #[trigger] callable_at(files, k, j) && (k < n || (k == n && j < m)) implies has_entry(
            repo,
            files,
            all,
            k,
            j,
        ) by {
            if k < n || j < m - 1 {
                assert(has_entry(repo, files, rest, k, j));
                let i = choose|i: int| 0 <= i < rest.len() && entry_at(repo, files, #[trigger] rest[i], k, j);
                assert(all[i] == rest[i]);
            }
        }
    }
}

proof fn lemma_indexed(repo: Seq<char>, files: Seq<FileEntry>, n: nat)
    requires
        n <= files.len(),
    ensures
        indexed_upto(repo, files, code_plane::call_index(repo, files, n), n as int, 0),
    decreases n,
{
    if n > 0 {
        let m = (n - 1) as nat;
        lemma_indexed(repo, files, m);
        let len = files[m as int].file.symbols@.len();
        lemma_callables(repo, files, m as int, len);
        let all = code_plane::call_index(repo, files, n);
        assert forall|i: int| 0 <= i < all.len() implies has_place(repo, files, #[trigger] all[i], n as int, 0) by {
            assert(has_place(repo, files, all[i], m as int, len as int));
            let (k, j) = choose|k: int, j: int|
                (k < m || (k == m && j < len)) && #[trigger] entry_at(repo, files, all[i], k, j);
            assert(entry_at(repo, files, all[i], k, j));
        }
        assert forall|k: int, j: int| #[trigger] callable_at(files, k, j) && (k < n || (k == n && j < 0)) implies has_entry(
            repo,
            files,
            all,
            k,
            j,
        ) by {
            assert(k < m || (k == m && j < len));
        }
    }
}

proof fn lemma_candidate(repo: Seq<char>, files: Seq<FileEntry>, f: int, call: CallRef, u: Seq<char>)
    requires
        0 <= f < files.len(),
    ensures
        code_plane::is_candidate(
            repo,
            files[f].path@,
            files[f].file,
            call,
            code_plane::call_index(repo, files, files.len()),
            u,
        ) == exists|k: int, j: int| #[trigger] can_reach(files, f, call, k, j) && uid_at(repo, files, k, j) == u,
{
    let index = code_plane::call_index(repo, files, files.len());
    let syms = files[f].file.symbols@;
    let imports = files[f].file.imports@;
    let name = call.callee_name@;
    let found = code_plane::is_candidate(repo, files[f].path@, files[f].file, call, index, u);
    lemma_indexed(repo, files, files.len());
    assert(imports.take(imports.len() as int) =~= imports);
    assert forall|path: Seq<char>| #[trigger] comes_from(imports, name, path) == (code_plane::import_target(
        imports,
        imports.len(),
        name,
    ) == Some(path)) by {
        lemma_import_target(imports, imports.len(), name, path);
    }
    assert forall|class: Seq<char>| #[trigger] shares_class(call.enclosing_fqn@, class) == (code_plane::enclosing_class(
        call.enclosing_fqn@,
    ) == Some(class)) by {
        lemma_enclosing_class(call.enclosing_fqn@, class);
    }
    if found {
        match call.receiver {
            None => {
                if exists|i: int|
                    0 <= i < syms.len() && code_plane::local_match(
                        repo,
                        files[f].path@,
                        #[trigger] syms[i],
                        name,
                        u,
                    ) {
                    let i = choose|i: int|
                        0 <= i < syms.len() && code_plane::local_match(
                            repo,
                            files[f].path@,
                            #[trigger] syms[i],
                            name,
                            u,
                        );
                    assert(can_reach(files, f, call, f, i));
                } else {
                    let module = code_plane::import_target(imports, imports.len(), name)->0;
                    let i = choose|i: int|
                        0 <= i < index.len() && (#[trigger] index[i]).module == module && index[i].name == name
                            && index[i].uid == u;
                    assert(has_place(repo, files, index[i], files.len() as int, 0));
                    let (k, j) = choose|k: int, j: int| entry_at(repo, files, index[i], k, j);
                    assert(comes_from(imports, name, files[k].path@));
                    assert(can_reach(files, f, call, k, j));
                }
            },
            Some(receiver) => {
                if receiver@ == "this"@ {
                    let class = code_plane::enclosing_class(call.enclosing_fqn@)->0;
                    let i = choose|i: int|
                        0 <= i < syms.len() && code_plane::class_match(
                            repo,
                            files[f].path@,
                            #[trigger] syms[i],
                            class,
                            name,
                            u,
                        );
                    assert(shares_class(call.enclosing_fqn@, class));
                    assert(can_reach(files, f, call, f, i));
                } else {
                    let i = choose|i: int|
                        0 <= i < index.len() && (#[trigger] index[i]).method && index[i].name == name && index[i].uid
                            == u;
                    assert(has_place(repo, files, index[i], files.len() as int, 0));
                    let (k, j) = choose|k: int, j: int| entry_at(repo, files, index[i], k, j);
                    assert(can_reach(files, f, call, k, j));
                }
            },
        }
    }
    if exists|k: int, j: int| #[trigger] can_reach(files, f, call, k, j) && uid_at(repo, files, k, j) == u {
        let (k, j) = choose|k: int, j: int| #[trigger]
            can_reach(files, f, call, k, j) && uid_at(repo, files, k, j) == u;
        let sym = files[k].file.symbols@[j];
        assert(callable_at(files, k, j));
        assert(has_entry(repo, files, index, k, j));
        let i = choose|i: int| 0 <= i < index.len() && entry_at(repo, files, #[trigger] index[i], k, j);
        match call.receiver {
            None => {
                if k == f {
                    assert(code_plane::local_match(repo, files[f].path@, syms[j], name, u));
                } else {
                    assert(index[i].module == files[k].path@);
                }
            },
            Some(receiver) => {
                if receiver@ == "this"@ {
                    let class = sym.container_fqn->0@;
                    assert(shares_class(call.enclosing_fqn@, class));
                    assert(code_plane::class_match(repo, files[f].path@, syms[j], class, name, u));
                } else {
                    assert(index[i].method);
                }
            },
        }
    }
}

proof fn lemma_candidates(repo: Seq<char>, files: Seq<FileEntry>, f: int, call: CallRef)
    requires
        0 <= f < files.len(),
    ensures
        ({
            let s = code_plane::candidates(
                repo,
                files[f].path@,
                files[f].file,
                call,
                code_plane::call_index(repo, files, files.len()),
            );
            &&& order::ascending(s)
            &&& forall|u: Seq<char>| #[trigger]
                s.contains(u) == exists|k: int, j: int| #[trigger]
                    can_reach(files, f, call, k, j) && uid_at(repo, files, k, j) == u
        }),
{
    let index = code_plane::call_index(repo, files, files.len());
    let path = files[f].path@;
    let file = files[f].file;
    let syms = file.symbols@;
    let name = call.callee_name@;
    let imports = file.imports@;
    let target = code_plane::import_target(imports, imports.len(), name);
    let class = code_plane::enclosing_class(call.enclosing_fqn@);
    let split = syms.len() as int;
    let hit = |i: int|
        if i < split {
            match call.receiver {
                None => code_plane::local_match(
                    repo,
                    path,
                    syms[i],
                    name,
                    code_plane::symbol_uid(repo, path, syms[i].fqn@),
                ),
                Some(r) => r@ == "this"@ && class is Some && code_plane::class_match(
                    repo,
                    path,
                    syms[i],
                    class->0,
                    name,
                    code_plane::symbol_uid(repo, path, syms[i].fqn@),
                ),
            }
        } else {
            let c = index[i - split];
            c.name == name && match call.receiver {
                None => target == Some(c.module),
                Some(r) => r@ != "this"@ && c.method,
            }
        };
    let uid = |i: int|
        if i < split {
            code_plane::symbol_uid(repo, path, syms[i].fqn@)
        } else {
            index[i - split].uid
        };
    let n = syms.len() + index.len();
    let k = order::lemma_listed(n, hit, uid);
    assert(code_plane::lists_candidates(repo, path, file, call, index, k)) by {
        assert forall|u: Seq<char>| #[trigger] k.contains(u) == code_plane::is_candidate(
            repo,
            path,
            file,
            call,
            index,
            u,
        ) by {
            if k.contains(u) {
                let i = choose|i: int| 0 <= i < n && #[trigger] hit(i) && uid(i) == u;
                if i < split {
                    assert(syms[i].fqn@ == syms[i].fqn@);
                } else {
                    assert(index[i - split].uid == u);
                }
            }
            if code_plane::is_candidate(repo, path, file, call, index, u) {
                match call.receiver {
                    None => {
                        if exists|i: int|
                            0 <= i < syms.len() && code_plane::local_match(repo, path, #[trigger] syms[i], name, u) {
                            let i = choose|i: int|
                                0 <= i < syms.len() && code_plane::local_match(
                                    repo,
                                    path,
                                    #[trigger] syms[i],
                                    name,
                                    u,
                                );
                            assert(hit(i) && uid(i) == u);
                        } else {
                            let module = target->0;
                            let i = choose|i: int|
                                0 <= i < index.len() && (#[trigger] index[i]).module == module && index[i].name
                                    == name && index[i].uid == u;
                            assert(hit(split + i) && uid(split + i) == u);
                        }
                    },
                    Some(r) => {
                        if r@ == "this"@ {
                            let i = choose|i: int|
                                0 <= i < syms.len() && code_plane::class_match(
                                    repo,
                                    path,
                                    #[trigger] syms[i],
                                    class->0,
                                    name,
                                    u,
                                );
                            assert(hit(i) && uid(i) == u);
                        } else {
                            let i = choose|i: int|
                                0 <= i < index.len() && (#[trigger] index[i]).method && index[i].name == name
                                    && index[i].uid == u;
                            assert(hit(split + i) && uid(split + i) == u);
                        }
                    },
                }
            }
        }
    }
    let s = code_plane::candidates(repo, path, file, call, index);
    assert(code_plane::lists_candidates(repo, path, file, call, index, s));
    assert forall|u: Seq<char>| #[trigger] s.contains(u) == exists|k: int, j: int| #[trigger]
        can_reach(files, f, call, k, j) && uid_at(repo, files, k, j) == u by {
        lemma_candidate(repo, files, f, call, u);
    }
}

// ----------------------------------------------------------------------------------------------
// The edges of calls
// ----------------------------------------------------------------------------------------------

proof fn lemma_call_edges(
    g: GraphView,
    caller: Seq<char>,
    targets: Seq<Seq<char>>,
    prov: Provenance,
    conf: u32,
    n: nat,
    e: EdgeView,
)
    requires
        n <= targets.len(),
    ensures
        code_plane::with_call_edges(g, caller, targets, prov, conf, n).edges.contains(e) == (g.edges.contains(e)
            || exists|i: int|
            0 <= i < n && e == model::edge_of(caller, #[trigger] targets[i], EdgeKind::Calls, prov, conf)),
    decreases n,
{
    if n > 0 {
        lemma_call_edges(g, caller, targets, prov, conf, (n - 1) as nat, e);
        let h = code_plane::with_call_edges(g, caller, targets, prov, conf, (n - 1) as nat);
        let x = model::edge_of(caller, targets[n - 1], EdgeKind::Calls, prov, conf);
        model::lemma_pushed(h.edges, x, e);
    }
}

proof fn lemma_call(
    g: GraphView,
    repo: Seq<char>,
    files: Seq<FileEntry>,
    f: int,
    call: CallRef,
    precise: Option<TargetView>,
    e: EdgeView,
)
    requires
        0 <= f < files.len(),
    ensures
        ({
            let index = code_plane::call_index(repo, files, files.len());
            let targets = code_plane::candidates(repo, files[f].path@, files[f].file, call, index);
            code_plane::with_call(
                g,
                code_plane::enclosing_uid(repo, files[f].path@, call.enclosing_fqn@),
                precise,
                targets,
                code_plane::class_of(call.receiver, targets.len()),
            ).0.edges.contains(e) == (g.edges.contains(e) || edge_of_call(repo, files, f, call, precise, e))
        }),
{
    let index = code_plane::call_index(repo, files, files.len());
    let targets = code_plane::candidates(repo, files[f].path@, files[f].file, call, index);
    let caller = code_plane::enclosing_uid(repo, files[f].path@, call.enclosing_fqn@);
    let class = code_plane::class_of(call.receiver, targets.len());
    assert(caller == caller_of(repo, files[f], call));
    match precise {
        Some(t) => {
            let h = code_plane::with_target(g, t);
            assert(h.edges == g.edges);
            let x = model::edge_of(
                caller,
                t.uid(),
                EdgeKind::Calls,
                Provenance::Resolved,
                code_plane::RESOLVED_CONFIDENCE,
            );
            model::lemma_pushed(h.edges, x, e);
        },
        None => {
            lemma_candidates(repo, files, f, call);
            let pc = code_plane::confidence_of(class);
            lemma_call_edges(g, caller, targets, pc.0, pc.1, targets.len(), e);
            if targets.len() == 1 {
                assert forall|k: int, j: int| #[trigger] can_reach(files, f, call, k, j) implies uid_at(
                    repo,
                    files,
                    k,
                    j,
                ) == targets[0] by {
                    assert(targets.contains(uid_at(repo, files, k, j)));
                }
            } else if targets.len() > 1 {
                assert(order::text_lt(targets[0], targets[1]));
                order::lemma_text_total(targets[0], targets[1]);
                assert(targets.contains(targets[0]) && targets.contains(targets[1]));
                let (k0, j0) = choose|k: int, j: int| #[trigger]
                    can_reach(files, f, call, k, j) && uid_at(repo, files, k, j) == targets[0];
                let (k1, j1) = choose|k: int, j: int| #[trigger]
                    can_reach(files, f, call, k, j) && uid_at(repo, files, k, j) == targets[1];
                assert forall|u: Seq<char>| !#[trigger] reaches_only(repo, files, f, call, u) by {
                    assert(can_reach(files, f, call, k0, j0) && can_reach(files, f, call, k1, j1));
                }
            }
            assert forall|i: int| 0 <= i < targets.len() implies name_edge(repo, files, f, call, targets[i])
                == model::edge_of(caller, #[trigger] targets[i], EdgeKind::Calls, pc.0, pc.1) by {
                if targets.len() == 1 {
                    assert(reaches_only(repo, files, f, call, targets[0]));
                }
            }
            if edge_of_call(repo, files, f, call, precise, e) {
                let (k, j) = choose|k: int, j: int| #[trigger]
                    can_reach(files, f, call, k, j) && e == name_edge(
                        repo,
                        files,
                        f,
                        call,
                        uid_at(repo, files, k, j),
                    );
                assert(targets.contains(uid_at(repo, files, k, j)));
                let i = choose|i: int| 0 <= i < targets.len() && targets[i] == uid_at(repo, files, k, j);
                assert(e == model::edge_of(caller, targets[i], EdgeKind::Calls, pc.0, pc.1));
            }
            if exists|i: int|
                0 <= i < targets.len() && e == model::edge_of(
                    caller,
                    #[trigger] targets[i],
                    EdgeKind::Calls,
                    pc.0,
                    pc.1,
                ) {
                let i = choose|i: int|
                    0 <= i < targets.len() && e == model::edge_of(
                        caller,
                        #[trigger] targets[i],
                        EdgeKind::Calls,
                        pc.0,
                        pc.1,
                    );
                assert(targets.contains(targets[i]));
                let (k, j) = choose|k: int, j: int| #[trigger]
                    can_reach(files, f, call, k, j) && uid_at(repo, files, k, j) == targets[i];
                assert(can_reach(files, f, call, k, j));
            }
        },
    }
}

/// Whether an edge is that of call `c` of file `f`.
pub open spec fn call_gives(
    repo: Seq<char>,
    files: Seq<FileEntry>,
    side: Option<ScipSide>,
    f: int,
    c: int,
    e: EdgeView,
) -> bool {
    let call = files[f].file.calls@[c];
    &&& 0 <= f < files.len()
    &&& 0 <= c < files[f].file.calls@.len()
    &&& edge_of_call(repo, files, f, call, code_plane::precise_target(side, files[f].path@, call), e)
}

proof fn lemma_calls(
    s: (GraphView, CoverageView),
    repo: Seq<char>,
    files: Seq<FileEntry>,
    side: Option<ScipSide>,
    f: int,
    n: nat,
    e: EdgeView,
)
    requires
        0 <= f < files.len(),
        n <= files[f].file.calls@.len(),
    ensures
        code_plane::with_calls(
            s,
            repo,
            files[f],
            code_plane::call_index(repo, files, files.len()),
            side,
            n,
        ).0.edges.contains(e) == (s.0.edges.contains(e) || exists|c: int|
            c < n && #[trigger] call_gives(repo, files, side, f, c, e)),
    decreases n,
{
    if n > 0 {
        let m = (n - 1) as nat;
        let index = code_plane::call_index(repo, files, files.len());
        lemma_calls(s, repo, files, side, f, m, e);
        let p = code_plane::with_calls(s, repo, files[f], index, side, m);
        let call = files[f].file.calls@[n - 1];
        lemma_call(p.0, repo, files, f, call, code_plane::precise_target(side, files[f].path@, call), e);
        assert(call_gives(repo, files, side, f, m as int, e) == edge_of_call(
            repo,
            files,
            f,
            call,
            code_plane::precise_target(side, files[f].path@, call),
            e,
        ));
        if exists|c: int| c < n && #[trigger] call_gives(repo, files, side, f, c, e) {
            let c = choose|c: int| c < n && #[trigger] call_gives(repo, files, side, f, c, e);
            assert(c < m || c == m);
        }
    }
}

proof fn lemma_all_calls(
    s: (GraphView, CoverageView),
    repo: Seq<char>,
    files: Seq<FileEntry>,
    side: Option<ScipSide>,
    n: nat,
    e: EdgeView,
)
    requires
        n <= files.len(),
    ensures
        code_plane::with_all_calls(
            s,
            repo,
            files,
            code_plane::call_index(repo, files, files.len()),
            side,
            n,
        ).0.edges.contains(e) == (s.0.edges.contains(e) || exists|f: int, c: int|
            f < n && #[trigger] call_gives(repo, files, side, f, c, e)),
    decreases n,
{
    if n > 0 {
        let m = (n - 1) as nat;
        let index = code_plane::call_index(repo, files, files.len());
        lemma_all_calls(s, repo, files, side, m, e);
        let p = code_plane::with_all_calls(s, repo, files, index, side, m);
        let len = files[m as int].file.calls@.len();
        lemma_calls(p, repo, files, side, m as int, len, e);
        if exists|c: int| c < len && #[trigger] call_gives(repo, files, side, m as int, c, e) {
            let c = choose|c: int| c < len && #[trigger] call_gives(repo, files, side, m as int, c, e);
            assert(call_gives(repo, files, side, m as int, c, e));
        }
        if exists|f: int, c: int| f < n && #[trigger] call_gives(repo, files, side, f, c, e) {
            let (f, c) = choose|f: int, c: int| f < n && #[trigger] call_gives(repo, files, side, f, c, e);
            assert(f < m || f == m);
        }
    }
}

// ----------------------------------------------------------------------------------------------
// The edges of structure and imports
// ----------------------------------------------------------------------------------------------

/// An edge that states a fact.
pub open spec fn fact(src: Seq<char>, dst: Seq<char>, kind: EdgeKind) -> EdgeView {
    EdgeView { src, dst, kind, provenance: Provenance::Extracted, confidence: 1_000_000_000 }
}

/// Whether an edge says that one node is a member of another, or that the other defines it.
pub open spec fn places(e: EdgeView, member: Seq<char>, container: Seq<char>) -> bool {
    e == fact(member, container, EdgeKind::MemberOf) || e == fact(container, member, EdgeKind::Defines)
}

/// The identifier of the module of a file.
pub open spec fn module_at(repo: Seq<char>, f: FileEntry) -> Seq<char> {
    model::uid_text("ts"@, repo, f.path@, "<module>"@, ""@)
}

/// Whether a symbol of a file goes into `c`: into its class, or into the module where it names no
/// class, or none that the file defines.
pub open spec fn goes_into(repo: Seq<char>, f: FileEntry, sym: RawSymbol, c: Seq<char>) -> bool {
    match sym.container_fqn {
        None => c == module_at(repo, f),
        Some(class) => c == model::uid_text("ts"@, repo, f.path@, class@, ""@) || (c == module_at(repo, f)
            && forall|i: int|
            0 <= i < f.file.symbols@.len() ==> (#[trigger] f.file.symbols@[i]).fqn@ != class@),
    }
}

/// Whether an edge places the module of file `f` in the repository, or one of its symbols.
pub open spec fn structure_gives(repo: Seq<char>, files: Seq<FileEntry>, f: int, e: EdgeView) -> bool {
    &&& 0 <= f < files.len()
    &&& places(e, module_at(repo, files[f]), model::uid_text("ts"@, repo, ""@, repo, ""@)) || exists|j: int, c: Seq<char>|
        0 <= j < files[f].file.symbols@.len() && goes_into(repo, files[f], files[f].file.symbols@[j], c) && #[trigger]
            places(e, uid_at(repo, files, f, j), c)
}

/// Whether an edge is that of an import of file `f`: to the module that it was resolved to, or to the
/// package.
pub open spec fn import_gives(repo: Seq<char>, files: Seq<FileEntry>, f: int, m: int, e: EdgeView) -> bool {
    &&& 0 <= f < files.len()
    &&& 0 <= m < files[f].file.imports@.len()
    &&& match files[f].file.imports@[m].resolution {
        ImportResolution::Resolved(target) => e == fact(
            module_at(repo, files[f]),
            model::uid_text("ts"@, repo, target@, "<module>"@, ""@),
            EdgeKind::Imports,
        ),
        ImportResolution::External(pkg) => e == fact(
            module_at(repo, files[f]),
            model::uid_text("ts"@, "<external>"@, ""@, pkg@, ""@),
            EdgeKind::Imports,
        ),
        ImportResolution::Unresolved => false,
    }
}

proof fn lemma_symbol_nodes(g: GraphView, repo: Seq<char>, path: Seq<char>, syms: Seq<RawSymbol>, n: nat)
    requires
        n <= syms.len(),
    ensures
        code_plane::with_symbol_nodes(g, repo, path, syms, n).edges == g.edges,
        forall|u: Seq<char>| #[trigger]
            g.has(u) ==> code_plane::with_symbol_nodes(g, repo, path, syms, n).has(u),
        forall|i: int|
            0 <= i < n ==> code_plane::with_symbol_nodes(g, repo, path, syms, n).has(
                model::uid_text("ts"@, repo, path, (#[trigger] syms[i]).fqn@, ""@),
            ),
        forall|x: NodeView| #[trigger]
            code_plane::with_symbol_nodes(g, repo, path, syms, n).nodes.contains(x) ==> g.nodes.contains(x)
                || exists|i: int| 0 <= i < n && x == symbol_fact(repo, path, #[trigger] syms[i]),
    decreases n,
{
    if n > 0 {
        lemma_symbol_nodes(g, repo, path, syms, (n - 1) as nat);
        let h = code_plane::with_symbol_nodes(g, repo, path, syms, (n - 1) as nat);
        let x = code_plane::symbol_node(repo, path, syms[n - 1]);
        assert(x == symbol_fact(repo, path, syms[n - 1]));
        model::law_with_node(h, x);
        model::lemma_noded(h, x);
    }
}

/// The node of a symbol.
pub open spec fn symbol_fact(repo: Seq<char>, path: Seq<char>, sym: RawSymbol) -> NodeView {
    NodeView {
        uid: model::uid_text("ts"@, repo, path, sym.fqn@, ""@),
        kind: sym.kind,
        name: sym.name@,
        fqn: sym.fqn@,
        path,
        span: sym.span,
        provenance: Provenance::Extracted,
        confidence: 1_000_000_000,
    }
}

proof fn lemma_symbol_edges(g: GraphView, repo: Seq<char>, files: Seq<FileEntry>, f: int, n: nat)
    requires
        0 <= f < files.len(),
        n <= files[f].file.symbols@.len(),
        g.has(module_at(repo, files[f])),
        forall|i: int| 0 <= i < files[f].file.symbols@.len() ==> #[trigger] g.has(uid_at(repo, files, f, i)),
    ensures
        ({
            let syms = files[f].file.symbols@;
            let h = code_plane::with_symbol_edges(g, repo, files[f].path@, syms, n);
            &&& h.nodes == g.nodes
            &&& forall|e: EdgeView| #[trigger] g.edges.contains(e) ==> h.edges.contains(e)
            &&& forall|j: int| 0 <= j < n ==> placed_symbol(repo, files, f, j, h)
            &&& forall|e: EdgeView| #[trigger]
                h.edges.contains(e) ==> g.edges.contains(e) || (structure_gives(repo, files, f, e) && g.has(e.src)
                    && g.has(e.dst))
        }),
    decreases n,
{
    if n > 0 {
        let syms = files[f].file.symbols@;
        let path = files[f].path@;
        lemma_symbol_edges(g, repo, files, f, (n - 1) as nat);
        let h = code_plane::with_symbol_edges(g, repo, path, syms, (n - 1) as nat);
        let k = code_plane::with_symbol_edges(g, repo, path, syms, n);
        let sym = syms[n - 1];
        let c = code_plane::container_of(h, repo, path, sym);
        let u = uid_at(repo, files, f, n - 1);
        assert(g.has(u));
        assert(forall|v: Seq<char>| #[trigger] h.has(v) == g.has(v));
        let a = fact(u, c, EdgeKind::MemberOf);
        let b = fact(c, u, EdgeKind::Defines);
        assert(k == h.with_edge(a).with_edge(b));
        assert forall|e: EdgeView| #[trigger] k.edges.contains(e) == (h.edges.contains(e) || e == a || e == b) by {
            model::lemma_pushed(h.edges, a, e);
            model::lemma_pushed(h.edges.push(a), b, e);
        }
        assert(goes_into(repo, files[f], sym, c)) by {
            if sym.container_fqn is Some && c == module_at(repo, files[f]) {
                let class = sym.container_fqn->0@;
                if !g.has(model::uid_text("ts"@, repo, path, class, ""@)) {
                    assert forall|i: int| 0 <= i < syms.len() implies (#[trigger] files[f].file.symbols@[i]).fqn@ != class by {
                        assert(g.has(uid_at(repo, files, f, i)));
                    }
                }
            }
        }
        assert(h.has(c));
        assert(forall|v: Seq<char>| #[trigger] k.has(v) == h.has(v));
        assert(placed_symbol(repo, files, f, n - 1, k)) by {
            assert(k.edges.contains(a) && k.edges.contains(b));
            assert(placed_in(repo, files, f, n - 1, k, c));
        }
        assert forall|j: int| 0 <= j < n implies placed_symbol(repo, files, f, j, k) by {
            if j < n - 1 {
                assert(placed_symbol(repo, files, f, j, h));
                let d = choose|d: Seq<char>| placed_in(repo, files, f, j, h, d);
                assert(placed_in(repo, files, f, j, k, d));
            }
        }
        assert forall|e: EdgeView| #[trigger] k.edges.contains(e) implies g.edges.contains(e) || (structure_gives(
            repo,
            files,
            f,
            e,
        ) && g.has(e.src) && g.has(e.dst)) by {
            if e == a || e == b {
                assert(places(e, uid_at(repo, files, f, n - 1), c));
            }
        }
    }
}

/// Whether a graph places symbol `j` of file `f` in `c`, a node of it.
pub open spec fn placed_in(repo: Seq<char>, files: Seq<FileEntry>, f: int, j: int, g: GraphView, c: Seq<char>) -> bool {
    &&& goes_into(repo, files[f], files[f].file.symbols@[j], c)
    &&& g.has(c)
    &&& g.has(uid_at(repo, files, f, j))
    &&& g.edges.contains(fact(uid_at(repo, files, f, j), c, EdgeKind::MemberOf))
    &&& g.edges.contains(fact(c, uid_at(repo, files, f, j), EdgeKind::Defines))
}

/// Whether a graph has symbol `j` of file `f` as a node and places it where it goes.
pub open spec fn placed_symbol(repo: Seq<char>, files: Seq<FileEntry>, f: int, j: int, g: GraphView) -> bool {
    exists|c: Seq<char>| placed_in(repo, files, f, j, g, c)
}

/// Whether a graph has the module of file `f` as a node and places it in the repository.
pub open spec fn placed_module(repo: Seq<char>, files: Seq<FileEntry>, f: int, g: GraphView) -> bool {
    let m = module_at(repo, files[f]);
    let r = model::uid_text("ts"@, repo, ""@, repo, ""@);
    &&& g.has(m)
    &&& g.edges.contains(fact(m, r, EdgeKind::MemberOf))
    &&& g.edges.contains(fact(r, m, EdgeKind::Defines))
}

/// The node of the module of a file: named by what follows the last slash of its path.
pub open spec fn is_module_fact(repo: Seq<char>, f: FileEntry, x: NodeView) -> bool {
    &&& x.uid == module_at(repo, f)
    &&& x.kind == NodeKind::Module
    &&& x.fqn == "<module>"@
    &&& x.path == f.path@
    &&& !x.name.contains('/')
    &&& f.path@ == x.name || exists|dir: Seq<char>| f.path@ == #[trigger] (dir + seq!['/'] + x.name)
    &&& x.provenance == Provenance::Extracted
    &&& x.confidence == 1_000_000_000
}

proof fn lemma_module_fact(repo: Seq<char>, f: FileEntry)
    ensures
        is_module_fact(repo, f, code_plane::module_node(repo, f.path@)),
{
    let p = f.path@;
    text::lemma_last_position(p, '/');
    let name = text::after_last(p, '/');
    match text::last_position(p, '/') {
        Some(i) => {
            assert(p =~= p.take(i) + seq!['/'] + name);
            if name.contains('/') {
                let w = choose|w: int| 0 <= w < name.len() && name[w] == '/';
                assert(p[i + 1 + w] == '/');
            }
        },
        None => {},
    }
}

/// Whether a node is the module of one of the first `n` files, or one of their symbols.
pub open spec fn defined_by(repo: Seq<char>, files: Seq<FileEntry>, n: int, x: NodeView) -> bool {
    ||| exists|f: int| 0 <= f < n && is_module_fact(repo, #[trigger] files[f], x)
    ||| exists|f: int, j: int|
        0 <= f < n && 0 <= j < files[f].file.symbols@.len() && x == symbol_fact(
            repo,
            files[f].path@,
            #[trigger] files[f].file.symbols@[j],
        )
}

proof fn lemma_structures(g: GraphView, repo: Seq<char>, files: Seq<FileEntry>, n: nat)
    requires
        n <= files.len(),
        g.has(model::uid_text("ts"@, repo, ""@, repo, ""@)),
    ensures
        ({
            let h = code_plane::with_structures(g, repo, files, n);
            &&& model::extends(g, h)
            &&& forall|f: int| 0 <= f < n ==> placed_module(repo, files, f, h)
            &&& forall|f: int, j: int|
                0 <= f < n && 0 <= j < files[f].file.symbols@.len() ==> placed_symbol(repo, files, f, j, h)
            &&& forall|e: EdgeView| #[trigger]
                h.edges.contains(e) ==> g.edges.contains(e) || (h.has(e.src) && h.has(e.dst) && exists|f: int|
                    0 <= f < n && structure_gives(repo, files, f, e))
            &&& forall|x: NodeView| #[trigger]
                h.nodes.contains(x) ==> g.nodes.contains(x) || defined_by(repo, files, n as int, x)
        }),
    decreases n,
{
    if n > 0 {
        let f = n - 1;
        let path = files[f].path@;
        let syms = files[f].file.symbols@;
        lemma_structures(g, repo, files, (n - 1) as nat);
        let a = code_plane::with_structures(g, repo, files, (n - 1) as nat);
        let node = code_plane::module_node(repo, path);
        lemma_module_fact(repo, files[f]);
        model::law_with_node(a, node);
        model::lemma_noded(a, node);
        let b = a.with_node(node);
        let m = module_at(repo, files[f]);
        let r = model::uid_text("ts"@, repo, ""@, repo, ""@);
        let c = code_plane::with_pair(b, m, r);
        let x = fact(m, r, EdgeKind::MemberOf);
        let y = fact(r, m, EdgeKind::Defines);
        assert(c == b.with_edge(x).with_edge(y));
        assert forall|e: EdgeView| #[trigger] c.edges.contains(e) == (a.edges.contains(e) || e == x || e == y) by {
            model::lemma_pushed(a.edges, x, e);
            model::lemma_pushed(a.edges.push(x), y, e);
        }
        lemma_symbol_nodes(c, repo, path, syms, syms.len());
        let d = code_plane::with_symbol_nodes(c, repo, path, syms, syms.len());
        assert(forall|v: Seq<char>| #[trigger] c.has(v) == b.has(v));
        assert(b.has(m) && b.has(r));
        assert(c.has(m) && c.has(r));
        assert forall|i: int| 0 <= i < syms.len() implies #[trigger] d.has(uid_at(repo, files, f, i)) by {
            assert(syms[i].fqn@ == files[f].file.symbols@[i].fqn@);
        }
        lemma_symbol_edges(d, repo, files, f, syms.len());
        let h = code_plane::with_structures(g, repo, files, n);
        assert(h == code_plane::with_symbol_edges(d, repo, path, syms, syms.len()));
        assert(forall|v: Seq<char>| #[trigger] h.has(v) == d.has(v));
        assert forall|v: Seq<char>| #[trigger] a.has(v) implies h.has(v) by {
            assert(b.has(v) && c.has(v) && d.has(v));
        }
        assert forall|e: EdgeView| #[trigger] c.edges.contains(e) implies h.edges.contains(e) by {
            assert(d.edges.contains(e));
        }
        assert forall|e: EdgeView| #[trigger] a.edges.contains(e) implies h.edges.contains(e) by {
            assert(c.edges.contains(e));
        }
        code_plane::lemma_structure_extends(a, repo, files[f]);
        assert(model::extends(g, h));
        assert forall|k: int| 0 <= k < n implies placed_module(repo, files, k, h) by {
            if k < f {
                assert(placed_module(repo, files, k, a));
            } else {
                assert(c.edges.contains(x) && c.edges.contains(y));
            }
        }
        assert forall|k: int, j: int| 0 <= k < n && 0 <= j < files[k].file.symbols@.len() implies placed_symbol(
            repo,
            files,
            k,
            j,
            h,
        ) by {
            if k < f {
                assert(placed_symbol(repo, files, k, j, a));
                let z = choose|z: Seq<char>| placed_in(repo, files, k, j, a, z);
                assert(a.has(z));
                assert(a.has(uid_at(repo, files, k, j)));
                assert(placed_in(repo, files, k, j, h, z));
            }
        }
        assert forall|e: EdgeView| #[trigger] h.edges.contains(e) implies g.edges.contains(e) || (h.has(e.src) && h.has(
            e.dst,
        ) && exists|k: int| 0 <= k < n && structure_gives(repo, files, k, e)) by {
            if d.edges.contains(e) {
                if a.edges.contains(e) {
                    if !g.edges.contains(e) {
                        assert(a.has(e.src) && a.has(e.dst));
                    }
                } else {
                    assert(places(e, m, r));
                    assert(structure_gives(repo, files, f, e));
                    assert(c.has(e.src) && c.has(e.dst));
                }
            } else {
                assert(structure_gives(repo, files, f, e));
            }
        }
        assert forall|z: NodeView| #[trigger] h.nodes.contains(z) implies g.nodes.contains(z) || defined_by(
            repo,
            files,
            n as int,
            z,
        ) by {
            if !c.nodes.contains(z) {
                let i = choose|i: int| 0 <= i < syms.len() && z == symbol_fact(repo, path, #[trigger] syms[i]);
                assert(z == symbol_fact(repo, files[f].path@, files[f].file.symbols@[i]));
            } else if z == node {
                assert(is_module_fact(repo, files[f], z));
            } else {
                assert(a.nodes.contains(z));
                if !g.nodes.contains(z) {
                    assert(defined_by(repo, files, n - 1, z));
                }
            }
        }
    }
}

/// The node of an external package.
pub open spec fn package_fact(pkg: Seq<char>) -> NodeView {
    NodeView {
        uid: model::uid_text("ts"@, "<external>"@, ""@, pkg, ""@),
        kind: NodeKind::Package,
        name: pkg,
        fqn: pkg,
        path: ""@,
        span: Span { start_line: 0, start_col: 0, end_line: 0, end_col: 0 },
        provenance: Provenance::Extracted,
        confidence: 1_000_000_000,
    }
}

/// Whether an import of one of the first files names this package.
pub open spec fn imports_package(files: Seq<FileEntry>, f: int, m: int, pkg: Seq<char>) -> bool {
    &&& 0 <= f < files.len()
    &&& 0 <= m < files[f].file.imports@.len()
    &&& files[f].file.imports@[m].resolution matches ImportResolution::External(p) && p@ == pkg
}

proof fn lemma_imports(g: GraphView, repo: Seq<char>, files: Seq<FileEntry>, f: int, n: nat)
    requires
        0 <= f < files.len(),
        n <= files[f].file.imports@.len(),
    ensures
        ({
            let h = code_plane::with_imports(g, repo, files[f].path@, files[f].file.imports@, n);
            &&& forall|u: Seq<char>| #[trigger] g.has(u) ==> h.has(u)
            &&& forall|e: EdgeView| #[trigger]
                h.edges.contains(e) == (g.edges.contains(e) || exists|m: int|
                    m < n && import_gives(repo, files, f, m, e))
            &&& forall|x: NodeView| #[trigger]
                h.nodes.contains(x) ==> g.nodes.contains(x) || exists|m: int, p: Seq<char>|
                    m < n && #[trigger] imports_package(files, f, m, p) && x == package_fact(p)
            &&& forall|m: int, p: Seq<char>|
                m < n && #[trigger] imports_package(files, f, m, p) ==> h.has(package_fact(p).uid)
        }),
    decreases n,
{
    if n > 0 {
        let k = (n - 1) as nat;
        let imports = files[f].file.imports@;
        lemma_imports(g, repo, files, f, k);
        let a = code_plane::with_imports(g, repo, files[f].path@, imports, k);
        let h = code_plane::with_imports(g, repo, files[f].path@, imports, n);
        let import = imports[n - 1];
        let last = n - 1;
        match import.resolution {
            ImportResolution::Resolved(target) => {
                let x = fact(
                    module_at(repo, files[f]),
                    model::uid_text("ts"@, repo, target@, "<module>"@, ""@),
                    EdgeKind::Imports,
                );
                assert(h == a.with_edge(x));
                assert(forall|v: Seq<char>| #[trigger] h.has(v) == a.has(v));
                assert forall|e: EdgeView| #[trigger] h.edges.contains(e) == (a.edges.contains(e) || e == x) by {
                    model::lemma_pushed(a.edges, x, e);
                }
                assert(forall|e: EdgeView| import_gives(repo, files, f, last, e) == (e == x));
                assert forall|x: NodeView| #[trigger] h.nodes.contains(x) implies a.nodes.contains(x) by {}
            },
            ImportResolution::External(pkg) => {
                let x = fact(module_at(repo, files[f]), package_fact(pkg@).uid, EdgeKind::Imports);
                let b = a.with_node(package_fact(pkg@));
                model::law_with_node(a, package_fact(pkg@));
                model::lemma_noded(a, package_fact(pkg@));
                assert(h == b.with_edge(x));
                assert(forall|v: Seq<char>| #[trigger] h.has(v) == b.has(v));
                assert forall|e: EdgeView| #[trigger] h.edges.contains(e) == (a.edges.contains(e) || e == x) by {
                    model::lemma_pushed(a.edges, x, e);
                }
                assert(forall|e: EdgeView| import_gives(repo, files, f, last, e) == (e == x));
                assert(imports_package(files, f, n - 1, pkg@));
                assert forall|x: NodeView| #[trigger] h.nodes.contains(x) implies a.nodes.contains(x) || x
                    == package_fact(pkg@) by {
                    assert(b.nodes.contains(x));
                }
                assert(b.has(package_fact(pkg@).uid));
            },
            ImportResolution::Unresolved => {
                assert(forall|e: EdgeView| !import_gives(repo, files, f, last, e));
            },
        }
        assert forall|e: EdgeView| #[trigger] h.edges.contains(e) == (g.edges.contains(e) || exists|m: int|
            m < n && import_gives(repo, files, f, m, e)) by {
            assert(a.edges.contains(e) == (g.edges.contains(e) || exists|m: int|
                m < k && import_gives(repo, files, f, m, e)));
            if exists|m: int| m < n && import_gives(repo, files, f, m, e) {
                let m = choose|m: int| m < n && import_gives(repo, files, f, m, e);
                assert(m < k || m == n - 1);
            }
            if h.edges.contains(e) && !a.edges.contains(e) {
                assert(import_gives(repo, files, f, n - 1, e));
            }
        }
        assert forall|m: int, p: Seq<char>| m < n && #[trigger] imports_package(files, f, m, p) implies h.has(
            package_fact(p).uid,
        ) by {
            if m < k {
                assert(a.has(package_fact(p).uid));
            }
        }
    }
}

proof fn lemma_all_imports(g: GraphView, repo: Seq<char>, files: Seq<FileEntry>, n: nat)
    requires
        n <= files.len(),
    ensures
        ({
            let h = code_plane::with_all_imports(g, repo, files, n);
            &&& forall|u: Seq<char>| #[trigger] g.has(u) ==> h.has(u)
            &&& forall|e: EdgeView| #[trigger]
                h.edges.contains(e) == (g.edges.contains(e) || exists|f: int, m: int|
                    f < n && import_gives(repo, files, f, m, e))
            &&& forall|x: NodeView| #[trigger]
                h.nodes.contains(x) ==> g.nodes.contains(x) || exists|f: int, m: int, p: Seq<char>|
                    f < n && #[trigger] imports_package(files, f, m, p) && x == package_fact(p)
            &&& forall|f: int, m: int, p: Seq<char>|
                f < n && #[trigger] imports_package(files, f, m, p) ==> h.has(package_fact(p).uid)
        }),
    decreases n,
{
    if n > 0 {
        let k = (n - 1) as nat;
        lemma_all_imports(g, repo, files, k);
        let a = code_plane::with_all_imports(g, repo, files, k);
        let h = code_plane::with_all_imports(g, repo, files, n);
        let len = files[k as int].file.imports@.len();
        lemma_imports(a, repo, files, k as int, len);
        assert forall|e: EdgeView| #[trigger] h.edges.contains(e) == (g.edges.contains(e) || exists|f: int, m: int|
            f < n && import_gives(repo, files, f, m, e)) by {
            assert(a.edges.contains(e) == (g.edges.contains(e) || exists|f: int, m: int|
                f < k && import_gives(repo, files, f, m, e)));
            if exists|f: int, m: int| f < n && import_gives(repo, files, f, m, e) {
                let (f, m) = choose|f: int, m: int| f < n && import_gives(repo, files, f, m, e);
                assert(f < k || f == k);
            }
            if exists|m: int| m < len && import_gives(repo, files, k as int, m, e) {
                let m = choose|m: int| m < len && import_gives(repo, files, k as int, m, e);
                assert(import_gives(repo, files, k as int, m, e));
            }
        }
        assert forall|f: int, m: int, p: Seq<char>| f < n && #[trigger] imports_package(files, f, m, p) implies h.has(
            package_fact(p).uid,
        ) by {
            if f < k {
                assert(a.has(package_fact(p).uid));
            }
        }
        assert forall|x: NodeView| #[trigger] h.nodes.contains(x) implies g.nodes.contains(x) || exists|f: int, m: int, p: Seq<char>|
            f < n && #[trigger] imports_package(files, f, m, p) && x == package_fact(p) by {
            if a.nodes.contains(x) && !g.nodes.contains(x) {
                let (f, m, p) = choose|f: int, m: int, p: Seq<char>|
                    f < k && #[trigger] imports_package(files, f, m, p) && x == package_fact(p);
                assert(imports_package(files, f, m, p));
            }
        }
    }
}

// ----------------------------------------------------------------------------------------------
// Laws
// ----------------------------------------------------------------------------------------------

proof fn lemma_start(repo: Seq<char>)
    ensures
        code_plane::repo_graph(repo).has(model::uid_text("ts"@, repo, ""@, repo, ""@)),
        code_plane::repo_graph(repo).edges.len() == 0,
        forall|x: NodeView| #[trigger]
            code_plane::repo_graph(repo).nodes.contains(x) ==> x.kind == NodeKind::Repo && x.name == repo && x.uid
                == model::uid_text("ts"@, repo, ""@, repo, ""@),
{
    let g = code_plane::repo_graph(repo);
    assert(g.nodes[0].uid == model::uid_text("ts"@, repo, ""@, repo, ""@));
}

/// The edges of the code plane, told by the files: what is placed in what, what is imported, and what
/// each call leads to, and nothing else. A call leads to its precise target where there is one, and to
/// everything that it can reach by names where there is none.
pub proof fn law_code_edges(
    repo: Seq<char>,
    files: Seq<FileEntry>,
    scip: Option<Seq<ScipEntry>>,
    sources: Seq<SourceText>,
    e: EdgeView,
)
    ensures
        ({
            let side = code_plane::scip_side(repo, files, scip, sources);
            let edges = code_plane::code_plane(repo, files, scip, sources).0.edges;
            &&& e.kind == EdgeKind::Calls ==> (edges.contains(e) <==> exists|f: int, c: int| #[trigger]
                call_gives(repo, files, side, f, c, e))
            &&& e.kind == EdgeKind::Imports ==> (edges.contains(e) <==> exists|f: int, m: int|
                import_gives(repo, files, f, m, e))
            &&& edges.contains(e) && e.kind != EdgeKind::Calls && e.kind != EdgeKind::Imports ==> exists|f: int|
                structure_gives(repo, files, f, e)
        }),
{
    let side = code_plane::scip_side(repo, files, scip, sources);
    let start = code_plane::repo_graph(repo);
    lemma_start(repo);
    lemma_structures(start, repo, files, files.len());
    let a = code_plane::with_structures(start, repo, files, files.len());
    lemma_all_imports(a, repo, files, files.len());
    let b = code_plane::linked_modules(repo, files);
    lemma_all_calls((b, code_plane::import_coverage(files, files.len())), repo, files, side, files.len(), e);
    assert(!start.edges.contains(e));
    assert(a.edges.contains(e) ==> e.kind == EdgeKind::MemberOf || e.kind == EdgeKind::Defines);
    assert(b.edges.contains(e) == (a.edges.contains(e) || exists|f: int, m: int|
        f < files.len() && import_gives(repo, files, f, m, e)));
    if exists|f: int, m: int| f < files.len() && import_gives(repo, files, f, m, e) {
        assert(e.kind == EdgeKind::Imports);
    }
    if exists|f: int, m: int| import_gives(repo, files, f, m, e) {
        let (f, m) = choose|f: int, m: int| import_gives(repo, files, f, m, e);
        assert(f < files.len() && import_gives(repo, files, f, m, e));
    }
    if exists|f: int, c: int| #[trigger] call_gives(repo, files, side, f, c, e) {
        let (f, c) = choose|f: int, c: int| #[trigger] call_gives(repo, files, side, f, c, e);
        assert(f < files.len() && call_gives(repo, files, side, f, c, e));
        assert(e.kind == EdgeKind::Calls);
    }
}

/// Every file of the repository is a module of the code plane, and every symbol of it a node, placed
/// in its class where the file defines that, else in the module; every package that is imported is a
/// node; and there is no other node but the repository and the packages that calls lead to.
pub proof fn law_code_structure(
    repo: Seq<char>,
    files: Seq<FileEntry>,
    scip: Option<Seq<ScipEntry>>,
    sources: Seq<SourceText>,
)
    ensures
        ({
            let g = code_plane::code_plane(repo, files, scip, sources).0;
            &&& forall|f: int| 0 <= f < files.len() ==> placed_module(repo, files, f, g)
            &&& forall|f: int, j: int|
                0 <= f < files.len() && 0 <= j < files[f].file.symbols@.len() ==> placed_symbol(repo, files, f, j, g)
            &&& forall|f: int, m: int, p: Seq<char>| #[trigger]
                imports_package(files, f, m, p) ==> g.has(package_fact(p).uid)
            &&& forall|x: NodeView| #[trigger]
                g.nodes.contains(x) && x.kind != NodeKind::Package && x.kind != NodeKind::Repo ==> defined_by(
                    repo,
                    files,
                    files.len() as int,
                    x,
                )
            &&& forall|x: NodeView|
                scip is None && #[trigger] g.nodes.contains(x) ==> defined_by(repo, files, files.len() as int, x) || (
                x.kind == NodeKind::Repo && x.name == repo && x.uid == model::uid_text("ts"@, repo, ""@, repo, ""@))
                    || exists|f: int, m: int, p: Seq<char>| #[trigger]
                    imports_package(files, f, m, p) && x == package_fact(p)
        }),
{
    let side = code_plane::scip_side(repo, files, scip, sources);
    let start = code_plane::repo_graph(repo);
    lemma_start(repo);
    lemma_structures(start, repo, files, files.len());
    let a = code_plane::with_structures(start, repo, files, files.len());
    lemma_all_imports(a, repo, files, files.len());
    let b = code_plane::linked_modules(repo, files);
    let s = (b, code_plane::import_coverage(files, files.len()));
    let index = code_plane::call_index(repo, files, files.len());
    let g = code_plane::code_plane(repo, files, scip, sources).0;
    lemma_all_call_nodes(s, repo, files, index, side, files.len());
    assert forall|e: EdgeView| #[trigger] a.edges.contains(e) implies g.edges.contains(e) by {
        assert(b.edges.contains(e));
        lemma_all_calls(s, repo, files, side, files.len(), e);
    }
    assert(g == code_plane::with_all_calls(s, repo, files, index, side, files.len()).0);
    assert forall|u: Seq<char>| #[trigger] b.has(u) implies g.has(u) by {
        assert(s.0.has(u));
    }
    assert forall|u: Seq<char>| #[trigger] a.has(u) implies g.has(u) by {
        assert(b.has(u));
    }
    assert forall|f: int| 0 <= f < files.len() implies placed_module(repo, files, f, g) by {
        assert(placed_module(repo, files, f, a));
    }
    assert forall|f: int, j: int| 0 <= f < files.len() && 0 <= j < files[f].file.symbols@.len() implies placed_symbol(
        repo,
        files,
        f,
        j,
        g,
    ) by {
        assert(placed_symbol(repo, files, f, j, a));
        let c = choose|c: Seq<char>| placed_in(repo, files, f, j, a, c);
        assert(a.has(c) && a.has(uid_at(repo, files, f, j)));
        assert(placed_in(repo, files, f, j, g, c));
    }
    assert forall|f: int, m: int, p: Seq<char>| #[trigger] imports_package(files, f, m, p) implies g.has(
        package_fact(p).uid,
    ) by {
        assert(b.has(package_fact(p).uid));
    }
    assert forall|x: NodeView| #[trigger] g.nodes.contains(x) && x.kind != NodeKind::Package && x.kind
        != NodeKind::Repo implies defined_by(repo, files, files.len() as int, x) by {
        assert(b.nodes.contains(x));
    }
}

proof fn lemma_call_nodes(
    g: GraphView,
    caller: Seq<char>,
    targets: Seq<Seq<char>>,
    prov: Provenance,
    conf: u32,
    n: nat,
)
    ensures
        code_plane::with_call_edges(g, caller, targets, prov, conf, n).nodes == g.nodes,
    decreases n,
{
    if n > 0 {
        lemma_call_nodes(g, caller, targets, prov, conf, (n - 1) as nat);
    }
}

proof fn lemma_file_call_nodes(
    s: (GraphView, CoverageView),
    repo: Seq<char>,
    f: FileEntry,
    index: Seq<CallableView>,
    side: Option<ScipSide>,
    n: nat,
)
    ensures
        ({
            let h = code_plane::with_calls(s, repo, f, index, side, n).0;
            &&& forall|u: Seq<char>| #[trigger] s.0.has(u) ==> h.has(u)
            &&& forall|x: NodeView| #[trigger]
                h.nodes.contains(x) ==> s.0.nodes.contains(x) || (side is Some && x.kind == NodeKind::Package)
        }),
    decreases n,
{
    if n > 0 {
        lemma_file_call_nodes(s, repo, f, index, side, (n - 1) as nat);
        let p = code_plane::with_calls(s, repo, f, index, side, (n - 1) as nat);
        let h = code_plane::with_calls(s, repo, f, index, side, n).0;
        let call = f.file.calls@[n - 1];
        let targets = code_plane::candidates(repo, f.path@, f.file, call, index);
        let caller = code_plane::enclosing_uid(repo, f.path@, call.enclosing_fqn@);
        let pc = code_plane::confidence_of(code_plane::class_of(call.receiver, targets.len()));
        lemma_call_nodes(p.0, caller, targets, pc.0, pc.1, targets.len());
        match code_plane::precise_target(side, f.path@, call) {
            Some(t) => {
                let w = code_plane::with_target(p.0, t);
                assert(h.nodes == w.nodes);
                assert(forall|v: Seq<char>| #[trigger] h.has(v) == w.has(v));
                if let TargetView::External(u) = t {
                    let x = model::fact_node(
                        u,
                        NodeKind::Package,
                        code_plane::package_name(u),
                        code_plane::package_name(u),
                        ""@,
                        model::no_span(),
                    );
                    model::law_with_node(p.0, x);
                    model::lemma_noded(p.0, x);
                }
            },
            None => {
                assert(h.nodes == p.0.nodes);
                assert(forall|v: Seq<char>| #[trigger] h.has(v) == p.0.has(v));
            },
        }
    }
}

proof fn lemma_all_call_nodes(
    s: (GraphView, CoverageView),
    repo: Seq<char>,
    files: Seq<FileEntry>,
    index: Seq<CallableView>,
    side: Option<ScipSide>,
    n: nat,
)
    ensures
        ({
            let h = code_plane::with_all_calls(s, repo, files, index, side, n).0;
            &&& forall|u: Seq<char>| #[trigger] s.0.has(u) ==> h.has(u)
            &&& forall|x: NodeView| #[trigger]
                h.nodes.contains(x) ==> s.0.nodes.contains(x) || (side is Some && x.kind == NodeKind::Package)
        }),
    decreases n,
{
    if n > 0 {
        lemma_all_call_nodes(s, repo, files, index, side, (n - 1) as nat);
        let p = code_plane::with_all_calls(s, repo, files, index, side, (n - 1) as nat);
        let f = files[n - 1];
        lemma_file_call_nodes(p, repo, f, index, side, f.file.calls@.len());
    }
}

/// Without a SCIP index, a bare call leads to every function and every method of its name in its own
/// file, as it stands there; and where it can reach nothing else, as an inference.
pub proof fn law_bare_call_reaches_own_file(repo: Seq<char>, files: Seq<FileEntry>, f: int, c: int, j: int)
    requires
        0 <= f < files.len(),
        0 <= c < files[f].file.calls@.len(),
        0 <= j < files[f].file.symbols@.len(),
        files[f].file.calls@[c].receiver is None,
        files[f].file.symbols@[j].kind == NodeKind::Function || files[f].file.symbols@[j].kind == NodeKind::Method,
        files[f].file.symbols@[j].name@ == files[f].file.calls@[c].callee_name@,
    ensures
        ({
            let call = files[f].file.calls@[c];
            let path = files[f].path@;
            let src = model::uid_text(
                "ts"@,
                repo,
                path,
                if call.enclosing_fqn@.len() == 0 {
                    "<module>"@
                } else {
                    call.enclosing_fqn@
                },
                ""@,
            );
            let dst = model::uid_text("ts"@, repo, path, files[f].file.symbols@[j].fqn@, ""@);
            let edges = code_plane::code_plane(repo, files, None, Seq::empty()).0.edges;
            edges.contains(
                EdgeView { src, dst, kind: EdgeKind::Calls, provenance: Provenance::Inferred, confidence: 800_000_000 },
            ) || edges.contains(
                EdgeView {
                    src,
                    dst,
                    kind: EdgeKind::Calls,
                    provenance: Provenance::Ambiguous,
                    confidence: 350_000_000,
                },
            )
        }),
{
    let call = files[f].file.calls@[c];
    let e = name_edge(repo, files, f, call, uid_at(repo, files, f, j));
    let side = code_plane::scip_side(repo, files, None, Seq::empty());
    assert(can_reach(files, f, call, f, j));
    assert(call_gives(repo, files, side, f, c, e));
    law_code_edges(repo, files, None, Seq::empty(), e);
}

/// Whether a call can reach something of this identifier.
pub open spec fn is_reached(repo: Seq<char>, files: Seq<FileEntry>, f: int, call: CallRef, u: Seq<char>) -> bool {
    exists|k: int, j: int| #[trigger] can_reach(files, f, call, k, j) && uid_at(repo, files, k, j) == u
}

/// What a call site can reach by names: what is found are exactly the symbols that the call can reach,
/// each once.
pub proof fn law_candidates(repo: Seq<char>, files: Seq<FileEntry>, f: int, call: CallRef)
    requires
        0 <= f < files.len(),
    ensures
        ({
            let s = code_plane::candidates(
                repo,
                files[f].path@,
                files[f].file,
                call,
                code_plane::call_index(repo, files, files.len()),
            );
            &&& s.no_duplicates()
            &&& forall|k: int, j: int| #[trigger]
                can_reach(files, f, call, k, j) ==> s.contains(uid_at(repo, files, k, j))
            &&& forall|i: int|
                0 <= i < s.len() ==> is_reached(repo, files, f, call, #[trigger] s[i])
        }),
{
    lemma_candidates(repo, files, f, call);
    let s = code_plane::candidates(
        repo,
        files[f].path@,
        files[f].file,
        call,
        code_plane::call_index(repo, files, files.len()),
    );
    assert forall|k: int, j: int| #[trigger] can_reach(files, f, call, k, j) implies s.contains(
        uid_at(repo, files, k, j),
    ) by {}
    assert forall|i: int, j: int| 0 <= i < s.len() && 0 <= j < s.len() && i != j implies s[i] != s[j] by {
        if i < j {
            order::lemma_text_total(s[i], s[j]);
        } else {
            order::lemma_text_total(s[j], s[i]);
        }
    }
    assert forall|i: int| 0 <= i < s.len() implies is_reached(repo, files, f, call, #[trigger] s[i]) by {
        assert(s.contains(s[i]));
    }
}

/// How many of the first `n` calls of file `f` satisfy `p`.
pub open spec fn calls_where(files: Seq<FileEntry>, p: spec_fn(int, CallRef) -> bool, f: int, n: nat) -> nat
    decreases n,
{
    if n == 0 {
        0
    } else {
        calls_where(files, p, f, (n - 1) as nat) + if p(f, files[f].file.calls@[n - 1]) { 1nat } else { 0 }
    }
}

/// How many calls of the first `n` files satisfy `p`.
pub open spec fn sites_where(files: Seq<FileEntry>, p: spec_fn(int, CallRef) -> bool, n: nat) -> nat
    decreases n,
{
    if n == 0 {
        0
    } else {
        sites_where(files, p, (n - 1) as nat) + calls_where(files, p, n - 1, files[n - 1].file.calls@.len())
    }
}

/// How many names the first `n` imports bring in that were resolved to a module or to a package.
pub open spec fn known_names(imports: Seq<ImportRef>, n: nat) -> nat
    decreases n,
{
    if n == 0 {
        0
    } else {
        known_names(imports, (n - 1) as nat) + match imports[n - 1].resolution {
            ImportResolution::Unresolved => 0,
            _ => imports[n - 1].imported_names@.len(),
        }
    }
}

/// How many names the first `n` files import that were resolved.
pub open spec fn all_known_names(files: Seq<FileEntry>, n: nat) -> nat
    decreases n,
{
    if n == 0 {
        0
    } else {
        all_known_names(files, (n - 1) as nat) + known_names(
            files[n - 1].file.imports@,
            files[n - 1].file.imports@.len(),
        )
    }
}

/// Whether the index knows the target of a call.
pub open spec fn is_precise(side: Option<ScipSide>, files: Seq<FileEntry>, f: int, call: CallRef) -> bool {
    code_plane::precise_target(side, files[f].path@, call) is Some
}

/// Whether a call can reach anything by names.
pub open spec fn reaches_some(files: Seq<FileEntry>, f: int, call: CallRef) -> bool {
    exists|k: int, j: int| can_reach(files, f, call, k, j)
}

/// Whether what a call reaches by names is ambiguous: on a receiver other than `this` always, bare where
/// it can reach several things.
pub open spec fn is_vague(repo: Seq<char>, files: Seq<FileEntry>, f: int, call: CallRef) -> bool {
    match call.receiver {
        None => exists|k: int, j: int, l: int, m: int|
            can_reach(files, f, call, k, j) && can_reach(files, f, call, l, m) && uid_at(repo, files, k, j) != uid_at(
                repo,
                files,
                l,
                m,
            ),
        Some(receiver) => receiver@ != "this"@,
    }
}

/// Whether counts tell how sites came out.
spec fn told(
    v: CoverageView,
    w: CoverageView,
    repo: Seq<char>,
    files: Seq<FileEntry>,
    side: Option<ScipSide>,
    resolved: nat,
    heuristic: nat,
    ambiguous: nat,
) -> bool {
    &&& w.resolved == v.resolved + resolved
    &&& w.heuristic == v.heuristic + heuristic
    &&& w.ambiguous == v.ambiguous + ambiguous
}

spec fn p_resolved(side: Option<ScipSide>, files: Seq<FileEntry>) -> spec_fn(int, CallRef) -> bool {
    |f: int, call: CallRef| is_precise(side, files, f, call)
}

spec fn p_heuristic(
    repo: Seq<char>,
    side: Option<ScipSide>,
    files: Seq<FileEntry>,
) -> spec_fn(int, CallRef) -> bool {
    |f: int, call: CallRef|
        !is_precise(side, files, f, call) && reaches_some(files, f, call) && !is_vague(repo, files, f, call)
}

spec fn p_ambiguous(
    repo: Seq<char>,
    side: Option<ScipSide>,
    files: Seq<FileEntry>,
) -> spec_fn(int, CallRef) -> bool {
    |f: int, call: CallRef|
        !is_precise(side, files, f, call) && reaches_some(files, f, call) && is_vague(repo, files, f, call)
}

proof fn lemma_outcome(repo: Seq<char>, files: Seq<FileEntry>, f: int, call: CallRef)
    requires
        0 <= f < files.len(),
    ensures
        ({
            let s = code_plane::candidates(
                repo,
                files[f].path@,
                files[f].file,
                call,
                code_plane::call_index(repo, files, files.len()),
            );
            &&& (s.len() > 0) == reaches_some(files, f, call)
            &&& s.len() > 0 ==> is_vague(repo, files, f, call) == (code_plane::confidence_of(
                code_plane::class_of(call.receiver, s.len()),
            ).0 == Provenance::Ambiguous)
        }),
{
    lemma_candidates(repo, files, f, call);
    let s = code_plane::candidates(
        repo,
        files[f].path@,
        files[f].file,
        call,
        code_plane::call_index(repo, files, files.len()),
    );
    if s.len() > 0 {
        assert(s.contains(s[0]));
    }
    if reaches_some(files, f, call) {
        let (k, j) = choose|k: int, j: int| can_reach(files, f, call, k, j);
        assert(s.contains(uid_at(repo, files, k, j)));
    }
    if call.receiver is None {
        if s.len() > 1 {
            assert(s.contains(s[0]) && s.contains(s[1]));
            assert(order::text_lt(s[0], s[1]));
            order::lemma_text_total(s[0], s[1]);
            let (k, j) = choose|k: int, j: int| #[trigger]
                can_reach(files, f, call, k, j) && uid_at(repo, files, k, j) == s[0];
            let (l, m) = choose|l: int, m: int| #[trigger]
                can_reach(files, f, call, l, m) && uid_at(repo, files, l, m) == s[1];
            assert(can_reach(files, f, call, k, j) && can_reach(files, f, call, l, m));
        }
        if is_vague(repo, files, f, call) {
            let (k, j, l, m) = choose|k: int, j: int, l: int, m: int|
                can_reach(files, f, call, k, j) && can_reach(files, f, call, l, m) && uid_at(repo, files, k, j)
                    != uid_at(repo, files, l, m);
            assert(s.contains(uid_at(repo, files, k, j)));
            assert(s.contains(uid_at(repo, files, l, m)));
            assert(s.len() > 1);
        }
    }
}

proof fn lemma_calls_told(
    s: (GraphView, CoverageView),
    repo: Seq<char>,
    files: Seq<FileEntry>,
    side: Option<ScipSide>,
    f: int,
    n: nat,
)
    requires
        0 <= f < files.len(),
        n <= files[f].file.calls@.len(),
    ensures
        told(
            s.1,
            code_plane::with_calls(
                s,
                repo,
                files[f],
                code_plane::call_index(repo, files, files.len()),
                side,
                n,
            ).1,
            repo,
            files,
            side,
            calls_where(files, p_resolved(side, files), f, n),
            calls_where(files, p_heuristic(repo, side, files), f, n),
            calls_where(files, p_ambiguous(repo, side, files), f, n),
        ),
    decreases n,
{
    if n > 0 {
        lemma_calls_told(s, repo, files, side, f, (n - 1) as nat);
        lemma_outcome(repo, files, f, files[f].file.calls@[n - 1]);
    }
}

proof fn lemma_all_calls_told(
    s: (GraphView, CoverageView),
    repo: Seq<char>,
    files: Seq<FileEntry>,
    side: Option<ScipSide>,
    n: nat,
)
    requires
        n <= files.len(),
    ensures
        told(
            s.1,
            code_plane::with_all_calls(
                s,
                repo,
                files,
                code_plane::call_index(repo, files, files.len()),
                side,
                n,
            ).1,
            repo,
            files,
            side,
            sites_where(files, p_resolved(side, files), n),
            sites_where(files, p_heuristic(repo, side, files), n),
            sites_where(files, p_ambiguous(repo, side, files), n),
        ),
    decreases n,
{
    if n > 0 {
        lemma_all_calls_told(s, repo, files, side, (n - 1) as nat);
        let index = code_plane::call_index(repo, files, files.len());
        let p = code_plane::with_all_calls(s, repo, files, index, side, (n - 1) as nat);
        lemma_calls_told(p, repo, files, side, n - 1, files[n - 1].file.calls@.len());
    }
}

proof fn lemma_names_told(v: CoverageView, imports: Seq<ImportRef>, n: nat)
    requires
        n <= imports.len(),
    ensures
        code_plane::with_import_names(v, imports, n).heuristic == v.heuristic + known_names(imports, n),
        code_plane::with_import_names(v, imports, n).resolved == v.resolved,
        code_plane::with_import_names(v, imports, n).ambiguous == v.ambiguous,
    decreases n,
{
    if n > 0 {
        lemma_names_told(v, imports, (n - 1) as nat);
    }
}

proof fn lemma_all_names_told(files: Seq<FileEntry>, n: nat)
    requires
        n <= files.len(),
    ensures
        code_plane::import_coverage(files, n).heuristic == all_known_names(files, n),
        code_plane::import_coverage(files, n).resolved == 0,
        code_plane::import_coverage(files, n).ambiguous == 0,
    decreases n,
{
    if n > 0 {
        lemma_all_names_told(files, (n - 1) as nat);
        let imports = files[n - 1].file.imports@;
        lemma_names_told(code_plane::import_coverage(files, (n - 1) as nat), imports, imports.len());
    }
}

/// The coverage of the code plane, told by the files: a call counts as resolved where the index knows
/// its target; else, where it can reach something by names, as ambiguous or as heuristic; and an
/// imported name counts as heuristic where its import was resolved.
pub proof fn law_code_coverage(
    repo: Seq<char>,
    files: Seq<FileEntry>,
    scip: Option<Seq<ScipEntry>>,
    sources: Seq<SourceText>,
)
    ensures
        ({
            let side = code_plane::scip_side(repo, files, scip, sources);
            let v = code_plane::code_plane(repo, files, scip, sources).1;
            &&& v.resolved == sites_where(files, |f: int, call: CallRef| is_precise(side, files, f, call), files.len())
            &&& v.heuristic == all_known_names(files, files.len()) + sites_where(
                files,
                |f: int, call: CallRef|
                    !is_precise(side, files, f, call) && reaches_some(files, f, call) && !is_vague(
                        repo,
                        files,
                        f,
                        call,
                    ),
                files.len(),
            )
            &&& v.ambiguous == sites_where(
                files,
                |f: int, call: CallRef|
                    !is_precise(side, files, f, call) && reaches_some(files, f, call) && is_vague(
                        repo,
                        files,
                        f,
                        call,
                    ),
                files.len(),
            )
        }),
{
    let side = code_plane::scip_side(repo, files, scip, sources);
    lemma_all_names_told(files, files.len());
    lemma_all_calls_told(
        (code_plane::linked_modules(repo, files), code_plane::import_coverage(files, files.len())),
        repo,
        files,
        side,
        files.len(),
    );
    assert(p_resolved(side, files) =~= |f: int, call: CallRef| is_precise(side, files, f, call));
}

} // verus!
