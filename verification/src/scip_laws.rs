//! What the answers of a SCIP index mean, told by the symbols of the files and the shape of monikers.
use vstd::prelude::*;

use crate::analysis::{FileEntry, RawSymbol, SourceText};
use crate::model;
use crate::scip_merge;
use crate::scip_merge::{
    IndicesView, LocView, ModuleView, NameView, Position, ResolvedTarget, ScipEntry, TargetView,
};
use crate::text;

verus! {

// ----------------------------------------------------------------------------------------------
// Definitions
// ----------------------------------------------------------------------------------------------

/// Whether symbol `s` of entry `f` is one of a file with a name.
pub open spec fn is_named(files: Seq<FileEntry>, file: Seq<char>, name: Seq<char>, f: int, s: int) -> bool {
    &&& 0 <= f < files.len()
    &&& 0 <= s < files[f].file.symbols@.len()
    &&& files[f].path@ == file
    &&& files[f].file.symbols@[s].name@ == name
}

/// Whether symbol `s` of entry `f` is one of a file with a name that starts on a line.
pub open spec fn starts_at(files: Seq<FileEntry>, file: Seq<char>, line: int, name: Seq<char>, f: int, s: int) -> bool {
    is_named(files, file, name, f, s) && files[f].file.symbols@[s].span.start_line == line
}

/// The identifier of a symbol.
pub open spec fn symbol_at(lang: Seq<char>, repo: Seq<char>, files: Seq<FileEntry>, f: int, s: int) -> Seq<char> {
    model::uid_text(lang, repo, files[f].path@, files[f].file.symbols@[s].fqn@, ""@)
}

/// Whether a definition of a name on a line of a file is the node `u`: the first symbol of that name that
/// starts there, or, where none does, the one node that all symbols of that name in the file are.
pub open spec fn is_definition(
    lang: Seq<char>,
    repo: Seq<char>,
    files: Seq<FileEntry>,
    file: Seq<char>,
    line: int,
    name: Seq<char>,
    u: Seq<char>,
) -> bool {
    ||| exists|f: int, s: int| #[trigger]
        starts_at(files, file, line, name, f, s) && u == symbol_at(lang, repo, files, f, s) && forall|g: int, t: int| #[trigger]
            starts_at(files, file, line, name, g, t) ==> f < g || (f == g && s <= t)
    ||| (forall|f: int, s: int| !#[trigger] starts_at(files, file, line, name, f, s)) && (exists|f: int, s: int| #[trigger]
        is_named(files, file, name, f, s)) && forall|f: int, s: int| #[trigger]
        is_named(files, file, name, f, s) ==> u == symbol_at(lang, repo, files, f, s)
}

/// Whether a symbol comes before place `(f, s)`.
spec fn earlier(g: int, t: int, f: int, s: int) -> bool {
    g < f || (g == f && t < s)
}

/// What the tables say of the symbols before place `(f, s)`.
spec fn tells(
    lang: Seq<char>,
    repo: Seq<char>,
    files: Seq<FileEntry>,
    ix: IndicesView,
    f: int,
    s: int,
    file: Seq<char>,
    line: int,
    name: Seq<char>,
) -> bool {
    let loc = scip_merge::loc_from(ix.locs, file, line, name, 0);
    let at = scip_merge::name_pos(ix.names, file, name, 0);
    &&& loc is None ==> forall|g: int, t: int| #[trigger]
        starts_at(files, file, line, name, g, t) ==> !earlier(g, t, f, s)
    &&& loc matches Some(u) ==> exists|g: int, t: int| #[trigger]
        starts_at(files, file, line, name, g, t) && earlier(g, t, f, s) && u == symbol_at(lang, repo, files, g, t)
            && forall|h: int, k: int| #[trigger]
            starts_at(files, file, line, name, h, k) ==> !earlier(h, k, g, t)
    &&& at < 0 ==> forall|g: int, t: int| #[trigger] is_named(files, file, name, g, t) ==> !earlier(g, t, f, s)
    &&& at >= 0 ==> at < ix.names.len() && ix.names[at].file == file && ix.names[at].name == name && (exists|
        g: int,
        t: int,
    | #[trigger]
        is_named(files, file, name, g, t) && earlier(g, t, f, s)) && forall|u: Seq<char>|
        (ix.names[at].uid == Some(u)) <==> #[trigger] all_are(lang, repo, files, f, s, file, name, u)
}

/// Whether every symbol of a name before place `(f, s)` is the node `u`.
spec fn all_are(
    lang: Seq<char>,
    repo: Seq<char>,
    files: Seq<FileEntry>,
    f: int,
    s: int,
    file: Seq<char>,
    name: Seq<char>,
    u: Seq<char>,
) -> bool {
    forall|g: int, t: int| #[trigger]
        is_named(files, file, name, g, t) && earlier(g, t, f, s) ==> u == symbol_at(lang, repo, files, g, t)
}

proof fn lemma_loc_push(locs: Seq<LocView>, x: LocView, file: Seq<char>, line: int, name: Seq<char>, from: int)
    requires
        0 <= from <= locs.len(),
    ensures
        scip_merge::loc_from(locs.push(x), file, line, name, from) == match scip_merge::loc_from(
            locs,
            file,
            line,
            name,
            from,
        ) {
            Some(u) => Some(u),
            None => if x.file == file && x.line == line && x.name == name {
                Some(x.uid)
            } else {
                None
            },
        },
    decreases locs.len() - from,
{
    let all = locs.push(x);
    if from < locs.len() {
        assert(all[from] == locs[from]);
        lemma_loc_push(locs, x, file, line, name, from + 1);
    } else {
        assert(all[from] == x);
        assert(scip_merge::loc_from(all, file, line, name, from + 1) is None);
    }
}

proof fn lemma_name_push(names: Seq<NameView>, x: NameView, file: Seq<char>, name: Seq<char>, from: int)
    requires
        0 <= from <= names.len(),
    ensures
        scip_merge::name_pos(names.push(x), file, name, from) == ({
            let at = scip_merge::name_pos(names, file, name, from);
            if at >= 0 {
                at
            } else if x.file == file && x.name == name {
                names.len() as int
            } else {
                -1
            }
        }),
    decreases names.len() - from,
{
    let all = names.push(x);
    if from < names.len() {
        assert(all[from] == names[from]);
        lemma_name_push(names, x, file, name, from + 1);
    } else {
        assert(all[from] == x);
        assert(scip_merge::name_pos(all, file, name, from + 1) == -1);
    }
}

proof fn lemma_name_update(names: Seq<NameView>, i: int, x: NameView, file: Seq<char>, name: Seq<char>, from: int)
    requires
        0 <= from,
        0 <= i < names.len(),
        names[i].file == x.file,
        names[i].name == x.name,
    ensures
        scip_merge::name_pos(names.update(i, x), file, name, from) == scip_merge::name_pos(names, file, name, from),
    decreases names.len() - from,
{
    if from < names.len() {
        lemma_name_update(names, i, x, file, name, from + 1);
    }
}

proof fn lemma_name_pos(names: Seq<NameView>, file: Seq<char>, name: Seq<char>, from: int)
    requires
        0 <= from,
    ensures
        ({
            let at = scip_merge::name_pos(names, file, name, from);
            at >= 0 ==> from <= at < names.len() && names[at].file == file && names[at].name == name
        }),
    decreases names.len() - from,
{
    if from < names.len() {
        lemma_name_pos(names, file, name, from + 1);
    }
}

proof fn lemma_with_symbol(
    lang: Seq<char>,
    repo: Seq<char>,
    files: Seq<FileEntry>,
    ix: IndicesView,
    f: int,
    s: int,
    file: Seq<char>,
    line: int,
    name: Seq<char>,
)
    requires
        0 <= f < files.len(),
        0 <= s < files[f].file.symbols@.len(),
        tells(lang, repo, files, ix, f, s, file, line, name),
        forall|l: int| #[trigger] tells(lang, repo, files, ix, f, s, file, l, name),
    ensures
        tells(
            lang,
            repo,
            files,
            ix.with_symbol(files[f].path@, files[f].file.symbols@[s], symbol_at(lang, repo, files, f, s)),
            f,
            s + 1,
            file,
            line,
            name,
        ),
{
    let path = files[f].path@;
    let sym = files[f].file.symbols@[s];
    let uid = symbol_at(lang, repo, files, f, s);
    let jx = ix.with_symbol(path, sym, uid);
    let x = LocView { file: path, line: sym.span.start_line, name: sym.name@, uid };
    let here = starts_at(files, file, line, name, f, s);
    let mine = is_named(files, file, name, f, s);
    assert forall|g: int, t: int| earlier(g, t, f, s + 1) == (#[trigger] earlier(g, t, f, s) || (g == f && t == s)) by {}
    // The locations.
    lemma_loc_push(ix.locs, x, file, line, name, 0);
    let loc = scip_merge::loc_from(ix.locs, file, line, name, 0);
    let loc2 = scip_merge::loc_from(jx.locs, file, line, name, 0);
    if loc is Some {
        assert(loc2 == loc);
        let (g, t) = choose|g: int, t: int| #[trigger]
            starts_at(files, file, line, name, g, t) && earlier(g, t, f, s) && loc == Some(
                symbol_at(lang, repo, files, g, t),
            ) && forall|h: int, k: int| #[trigger] starts_at(files, file, line, name, h, k) ==> !earlier(h, k, g, t);
        assert(earlier(g, t, f, s + 1));
    } else if here {
        assert(jx.locs == ix.locs.push(x));
        assert(loc2 == Some(uid));
        assert(starts_at(files, file, line, name, f, s) && earlier(f, s, f, s + 1));
    } else {
        assert(loc2 is None) by {
            if jx.locs != ix.locs {
                assert(!(x.file == file && x.line == line && x.name == name));
            }
        }
    }
    // The names.
    let at = scip_merge::name_pos(ix.names, file, name, 0);
    let own = scip_merge::name_pos(ix.names, path, sym.name@, 0);
    let at2 = scip_merge::name_pos(jx.names, file, name, 0);
    lemma_name_pos(ix.names, path, sym.name@, 0);
    lemma_name_pos(ix.names, file, name, 0);
    if own < 0 {
        let y = NameView { file: path, name: sym.name@, uid: Some(uid) };
        lemma_name_push(ix.names, y, file, name, 0);
        assert(jx.names == ix.names.push(y));
        if mine {
            assert(at2 == ix.names.len());
            assert(jx.names[at2].uid == Some(uid));
            assert(is_named(files, file, name, f, s) && earlier(f, s, f, s + 1));
            assert forall|u: Seq<char>|
                (jx.names[at2].uid == Some(u)) <==> #[trigger] all_are(lang, repo, files, f, s + 1, file, name, u) by {
                if u == uid {
                    assert forall|g: int, t: int| #[trigger]
                        is_named(files, file, name, g, t) && earlier(g, t, f, s + 1) implies u == symbol_at(
                        lang,
                        repo,
                        files,
                        g,
                        t,
                    ) by {
                        assert(!earlier(g, t, f, s));
                    }
                } else if all_are(lang, repo, files, f, s + 1, file, name, u) {
                    assert(is_named(files, file, name, f, s) && earlier(f, s, f, s + 1));
                }
            }
        } else {
            assert(at >= 0 ==> at2 == at);
            assert(at < 0 ==> at2 < 0);
            if at >= 0 {
                assert(jx.names[at2] == ix.names[at]);
            }
            lemma_unmoved(lang, repo, files, f, s, file, name);
        }
    } else {
        let z = NameView { file: path, name: sym.name@, uid: None };
        lemma_name_update(ix.names, own, z, file, name, 0);
        assert(at2 == at);
        if mine {
            assert(own == at);
            assert(is_named(files, file, name, f, s) && earlier(f, s, f, s + 1));
            let known = ix.names[at].uid;
            assert forall|u: Seq<char>|
                (jx.names[at2].uid == Some(u)) <==> #[trigger] all_are(lang, repo, files, f, s + 1, file, name, u) by {
                assert((known == Some(u)) <==> all_are(lang, repo, files, f, s, file, name, u));
                if known == Some(uid) {
                    assert(jx.names == ix.names);
                    if u == uid {
                        assert(all_are(lang, repo, files, f, s, file, name, u));
                        assert forall|g: int, t: int| #[trigger]
                            is_named(files, file, name, g, t) && earlier(g, t, f, s + 1) implies u == symbol_at(
                            lang,
                            repo,
                            files,
                            g,
                            t,
                        ) by {}
                    } else if all_are(lang, repo, files, f, s + 1, file, name, u) {
                        assert(u == symbol_at(lang, repo, files, f, s));
                    }
                } else {
                    assert(jx.names[at2].uid is None);
                    if all_are(lang, repo, files, f, s + 1, file, name, u) {
                        assert(u == symbol_at(lang, repo, files, f, s));
                        assert forall|g: int, t: int| #[trigger]
                            is_named(files, file, name, g, t) && earlier(g, t, f, s) implies u == symbol_at(
                            lang,
                            repo,
                            files,
                            g,
                            t,
                        ) by {
                            assert(earlier(g, t, f, s + 1));
                        }
                        assert(all_are(lang, repo, files, f, s, file, name, u));
                        assert(known == Some(uid));
                    }
                }
            }
        } else {
            lemma_unmoved(lang, repo, files, f, s, file, name);
            if at >= 0 {
                assert(at != own);
                assert(jx.names[at2] == ix.names[at]);
            }
        }
    }
}

proof fn lemma_unmoved(
    lang: Seq<char>,
    repo: Seq<char>,
    files: Seq<FileEntry>,
    f: int,
    s: int,
    file: Seq<char>,
    name: Seq<char>,
)
    requires
        !is_named(files, file, name, f, s),
    ensures
        forall|u: Seq<char>| #[trigger]
            all_are(lang, repo, files, f, s + 1, file, name, u) == all_are(lang, repo, files, f, s, file, name, u),
        forall|g: int, t: int| #[trigger]
            is_named(files, file, name, g, t) ==> earlier(g, t, f, s + 1) == earlier(g, t, f, s),
{
    assert forall|g: int, t: int| #[trigger] is_named(files, file, name, g, t) implies earlier(g, t, f, s + 1)
        == earlier(g, t, f, s) by {}
    assert forall|u: Seq<char>| #[trigger] all_are(lang, repo, files, f, s + 1, file, name, u) == all_are(
        lang,
        repo,
        files,
        f,
        s,
        file,
        name,
        u,
    ) by {
        if all_are(lang, repo, files, f, s, file, name, u) {
            assert forall|g: int, t: int| #[trigger]
                is_named(files, file, name, g, t) && earlier(g, t, f, s + 1) implies u == symbol_at(
                lang,
                repo,
                files,
                g,
                t,
            ) by {
                assert(earlier(g, t, f, s));
            }
        }
        if all_are(lang, repo, files, f, s + 1, file, name, u) {
            assert forall|g: int, t: int| #[trigger]
                is_named(files, file, name, g, t) && earlier(g, t, f, s) implies u == symbol_at(
                lang,
                repo,
                files,
                g,
                t,
            ) by {
                assert(earlier(g, t, f, s + 1));
            }
        }
    }
}

proof fn lemma_with_symbols(
    lang: Seq<char>,
    repo: Seq<char>,
    files: Seq<FileEntry>,
    ix: IndicesView,
    f: int,
    n: nat,
    file: Seq<char>,
    name: Seq<char>,
)
    requires
        0 <= f < files.len(),
        n <= files[f].file.symbols@.len(),
        forall|l: int| #[trigger] tells(lang, repo, files, ix, f, 0, file, l, name),
    ensures
        forall|l: int| #[trigger]
            tells(
                lang,
                repo,
                files,
                ix.with_symbols(lang, repo, files[f].path@, files[f].file.symbols@, n),
                f,
                n as int,
                file,
                l,
                name,
            ),
    decreases n,
{
    if n > 0 {
        let m = (n - 1) as nat;
        lemma_with_symbols(lang, repo, files, ix, f, m, file, name);
        let b = ix.with_symbols(lang, repo, files[f].path@, files[f].file.symbols@, m);
        let c = ix.with_symbols(lang, repo, files[f].path@, files[f].file.symbols@, n);
        assert forall|l: int| #[trigger] tells(lang, repo, files, c, f, n as int, file, l, name) by {
            assert(tells(lang, repo, files, b, f, m as int, file, l, name));
            lemma_with_symbol(lang, repo, files, b, f, m as int, file, l, name);
        }
    } else {
        assert(ix.with_symbols(lang, repo, files[f].path@, files[f].file.symbols@, 0) == ix);
    }
}

proof fn lemma_next_file(
    lang: Seq<char>,
    repo: Seq<char>,
    files: Seq<FileEntry>,
    ix: IndicesView,
    f: int,
    file: Seq<char>,
    line: int,
    name: Seq<char>,
)
    requires
        0 <= f < files.len(),
        tells(lang, repo, files, ix, f, files[f].file.symbols@.len() as int, file, line, name),
    ensures
        tells(lang, repo, files, ix, f + 1, 0, file, line, name),
{
    let size = files[f].file.symbols@.len() as int;
    assert forall|g: int, t: int| #[trigger] is_named(files, file, name, g, t) implies earlier(g, t, f + 1, 0)
        == earlier(g, t, f, size) by {}
    assert forall|g: int, t: int| #[trigger] starts_at(files, file, line, name, g, t) implies earlier(g, t, f + 1, 0)
        == earlier(g, t, f, size) by {
        assert(is_named(files, file, name, g, t));
    }
    assert forall|u: Seq<char>| #[trigger] all_are(lang, repo, files, f + 1, 0, file, name, u) == all_are(
        lang,
        repo,
        files,
        f,
        size,
        file,
        name,
        u,
    ) by {
        if all_are(lang, repo, files, f, size, file, name, u) {
            assert forall|g: int, t: int| #[trigger]
                is_named(files, file, name, g, t) && earlier(g, t, f + 1, 0) implies u == symbol_at(
                lang,
                repo,
                files,
                g,
                t,
            ) by {
                assert(earlier(g, t, f, size));
            }
        }
        if all_are(lang, repo, files, f + 1, 0, file, name, u) {
            assert forall|g: int, t: int| #[trigger]
                is_named(files, file, name, g, t) && earlier(g, t, f, size) implies u == symbol_at(
                lang,
                repo,
                files,
                g,
                t,
            ) by {
                assert(earlier(g, t, f + 1, 0));
            }
        }
    }
}

proof fn lemma_indices(lang: Seq<char>, repo: Seq<char>, files: Seq<FileEntry>, n: nat, file: Seq<char>, name: Seq<char>)
    requires
        n <= files.len(),
    ensures
        forall|l: int| #[trigger]
            tells(lang, repo, files, scip_merge::indices_upto(lang, repo, files, n), n as int, 0, file, l, name),
    decreases n,
{
    if n > 0 {
        let m = (n - 1) as nat;
        lemma_indices(lang, repo, files, m, file, name);
        let a = scip_merge::indices_upto(lang, repo, files, m);
        let b = a.with_module(lang, repo, files[m as int].path@);
        assert forall|l: int| #[trigger] tells(lang, repo, files, b, m as int, 0, file, l, name) by {
            assert(tells(lang, repo, files, a, m as int, 0, file, l, name));
        }
        let size = files[m as int].file.symbols@.len();
        lemma_with_symbols(lang, repo, files, b, m as int, size, file, name);
        let c = scip_merge::indices_upto(lang, repo, files, n);
        assert forall|l: int| #[trigger] tells(lang, repo, files, c, n as int, 0, file, l, name) by {
            assert(tells(lang, repo, files, c, m as int, size as int, file, l, name));
            lemma_next_file(lang, repo, files, c, m as int, file, l, name);
        }
    } else {
        let a = scip_merge::indices_upto(lang, repo, files, 0);
        assert forall|l: int| #[trigger] tells(lang, repo, files, a, 0, 0, file, l, name) by {
            assert(scip_merge::loc_from(a.locs, file, l, name, 0) is None);
            assert(scip_merge::name_pos(a.names, file, name, 0) == -1);
        }
    }
}

/// A definition of a name on a line of a file is found exactly if one is there to find: the first symbol
/// of that name that starts on the line; where none does, the node that every symbol of that name in the
/// file is. Where the name stands for several nodes, none is guessed.
pub proof fn law_named_definition(
    lang: Seq<char>,
    repo: Seq<char>,
    files: Seq<FileEntry>,
    file: Seq<char>,
    line: int,
    name: Seq<char>,
    u: Seq<char>,
)
    ensures
        scip_merge::named_def(scip_merge::indices_of(lang, repo, files), file, line, name) == Some(u)
            <==> is_definition(lang, repo, files, file, line, name, u),
{
    let ix = scip_merge::indices_of(lang, repo, files);
    let n = files.len() as int;
    lemma_indices(lang, repo, files, files.len(), file, name);
    assert(tells(lang, repo, files, ix, n, 0, file, line, name));
    assert forall|g: int, t: int| #[trigger] is_named(files, file, name, g, t) implies earlier(g, t, n, 0) by {}
    assert forall|g: int, t: int| #[trigger] starts_at(files, file, line, name, g, t) implies earlier(g, t, n, 0) by {
        assert(is_named(files, file, name, g, t));
    }
    let loc = scip_merge::loc_from(ix.locs, file, line, name, 0);
    let at = scip_merge::name_pos(ix.names, file, name, 0);
    match loc {
        Some(w) => {
            let (g, t) = choose|g: int, t: int| #[trigger]
                starts_at(files, file, line, name, g, t) && earlier(g, t, n, 0) && w == symbol_at(
                    lang,
                    repo,
                    files,
                    g,
                    t,
                ) && forall|h: int, k: int| #[trigger]
                    starts_at(files, file, line, name, h, k) ==> !earlier(h, k, g, t);
            if is_definition(lang, repo, files, file, line, name, u) {
                let (f, s) = choose|f: int, s: int| #[trigger]
                    starts_at(files, file, line, name, f, s) && u == symbol_at(lang, repo, files, f, s) && forall|
                        h: int,
                        k: int,
                    | #[trigger]
                        starts_at(files, file, line, name, h, k) ==> f < h || (f == h && s <= k);
                assert(!earlier(f, s, g, t));
                assert(f < g || (f == g && s <= t));
                assert(f == g && s == t);
            }
        },
        None => {
            assert(forall|f: int, s: int| !#[trigger] starts_at(files, file, line, name, f, s));
            if at >= 0 {
                let (g, t) = choose|g: int, t: int| #[trigger]
                    is_named(files, file, name, g, t) && earlier(g, t, n, 0);
                assert(is_named(files, file, name, g, t));
                assert((ix.names[at].uid == Some(u)) <==> all_are(lang, repo, files, n, 0, file, name, u));
            } else {
                assert(forall|f: int, s: int| !#[trigger] is_named(files, file, name, f, s));
            }
        },
    }
}

proof fn lemma_modules(lang: Seq<char>, repo: Seq<char>, files: Seq<FileEntry>, n: nat)
    requires
        n <= files.len(),
    ensures
        ({
            let m = scip_merge::indices_upto(lang, repo, files, n).modules;
            m.len() == n && forall|i: int|
                0 <= i < n ==> #[trigger] m[i] == (ModuleView {
                    file: files[i].path@,
                    uid: model::uid_text(lang, repo, files[i].path@, "<module>"@, ""@),
                })
        }),
    decreases n,
{
    if n > 0 {
        let k = (n - 1) as nat;
        lemma_modules(lang, repo, files, k);
        let f = files[k as int];
        let b = scip_merge::indices_upto(lang, repo, files, k).with_module(lang, repo, f.path@);
        lemma_keeps_modules(b, lang, repo, f.path@, f.file.symbols@, f.file.symbols@.len());
    }
}

proof fn lemma_keeps_modules(
    ix: IndicesView,
    lang: Seq<char>,
    repo: Seq<char>,
    file: Seq<char>,
    syms: Seq<RawSymbol>,
    n: nat,
)
    ensures
        ix.with_symbols(lang, repo, file, syms, n).modules == ix.modules,
    decreases n,
{
    if n > 0 {
        lemma_keeps_modules(ix, lang, repo, file, syms, (n - 1) as nat);
    }
}

proof fn lemma_module_from(modules: Seq<ModuleView>, file: Seq<char>, from: int)
    requires
        0 <= from,
    ensures
        match scip_merge::module_from(modules, file, from) {
            Some(u) => exists|i: int| from <= i < modules.len() && (#[trigger] modules[i]).file == file && modules[i].uid == u,
            None => forall|i: int| from <= i < modules.len() ==> (#[trigger] modules[i]).file != file,
        },
    decreases modules.len() - from,
{
    if from < modules.len() && modules[from].file != file {
        lemma_module_from(modules, file, from + 1);
    }
}

/// The module of a file is found exactly if the file was analyzed.
pub proof fn law_module_definition(lang: Seq<char>, repo: Seq<char>, files: Seq<FileEntry>, file: Seq<char>, u: Seq<char>)
    ensures
        scip_merge::module_from(scip_merge::indices_of(lang, repo, files).modules, file, 0) == Some(u) <==> u
            == model::uid_text(lang, repo, file, "<module>"@, ""@) && exists|f: int|
            0 <= f < files.len() && (#[trigger] files[f]).path@ == file,
{
    let m = scip_merge::indices_of(lang, repo, files).modules;
    lemma_modules(lang, repo, files, files.len());
    lemma_module_from(m, file, 0);
    if exists|f: int| 0 <= f < files.len() && (#[trigger] files[f]).path@ == file {
        let f = choose|f: int| 0 <= f < files.len() && (#[trigger] files[f]).path@ == file;
        assert(m[f].file == file);
    }
    match scip_merge::module_from(m, file, 0) {
        Some(w) => {
            let i = choose|i: int| 0 <= i < m.len() && (#[trigger] m[i]).file == file && m[i].uid == w;
            assert(files[i].path@ == file);
        },
        None => {},
    }
}

// ----------------------------------------------------------------------------------------------
// Answers and sources
// ----------------------------------------------------------------------------------------------

/// Whether entry `i` is the first answer for a position of a file.
pub open spec fn answers(entries: Seq<ScipEntry>, file: Seq<char>, pos: Position, i: int) -> bool {
    &&& 0 <= i < entries.len()
    &&& entries[i].file@ == file && entries[i].position == pos
    &&& forall|k: int| 0 <= k < i ==> (#[trigger] entries[k]).file@ != file || entries[k].position != pos
}

proof fn lemma_answer_from(entries: Seq<ScipEntry>, file: Seq<char>, pos: Position, from: int)
    requires
        0 <= from,
        forall|k: int| 0 <= k < from && k < entries.len() ==> (#[trigger] entries[k]).file@ != file
            || entries[k].position != pos,
    ensures
        match scip_merge::answer_from(entries, file, pos, from) {
            Some(t) => exists|i: int| #[trigger] answers(entries, file, pos, i) && entries[i].target == t,
            None => forall|i: int| !#[trigger] answers(entries, file, pos, i),
        },
    decreases entries.len() - from,
{
    if from < entries.len() {
        if entries[from].file@ == file && entries[from].position == pos {
            assert(answers(entries, file, pos, from));
        } else {
            lemma_answer_from(entries, file, pos, from + 1);
        }
    }
}

/// Whether source `i` is the first of a path.
pub open spec fn is_source(sources: Seq<SourceText>, path: Seq<char>, i: int) -> bool {
    &&& 0 <= i < sources.len()
    &&& sources[i].path@ == path
    &&& forall|k: int| 0 <= k < i ==> (#[trigger] sources[k]).path@ != path
}

proof fn lemma_source_from(sources: Seq<SourceText>, path: Seq<char>, from: int)
    requires
        0 <= from,
        forall|k: int| 0 <= k < from && k < sources.len() ==> (#[trigger] sources[k]).path@ != path,
    ensures
        match scip_merge::source_from(sources, path, from) {
            Some(t) => exists|i: int| #[trigger] is_source(sources, path, i) && sources[i].text@ == t,
            None => forall|i: int| !#[trigger] is_source(sources, path, i),
        },
    decreases sources.len() - from,
{
    if from < sources.len() {
        if sources[from].path@ == path {
            assert(is_source(sources, path, from));
        } else {
            lemma_source_from(sources, path, from + 1);
        }
    }
}

/// Whether an answer leads to a target: the package of an external symbol, the definition of the name
/// that the moniker tells, or the module of the file where it tells none. Lines of positions count from
/// zero, lines of symbols from one.
pub open spec fn leads_to(
    lang: Seq<char>,
    repo: Seq<char>,
    files: Seq<FileEntry>,
    t: ResolvedTarget,
    r: TargetView,
) -> bool {
    match r {
        TargetView::External(u) => t.is_external && (scip_merge::moniker_package(t.moniker@) matches Some(pkg) && u
            == model::uid_text("ts"@, "<external>"@, ""@, pkg, ""@)),
        TargetView::Node(u) => !t.is_external && (t.def_file matches Some(file) && (t.def_position matches Some(pos)
            && match scip_merge::moniker_name(t.moniker@) {
            Some(name) => is_definition(lang, repo, files, file@, pos.line + 1, name, u),
            None => u == model::uid_text(lang, repo, file@, "<module>"@, ""@) && exists|f: int|
                0 <= f < files.len() && (#[trigger] files[f]).path@ == file@,
        })),
    }
}

/// Whether the index answers for a site by entry `k`, at its position in source `i`: columns of positions
/// count UTF-16 units, columns of sites bytes.
pub open spec fn answered(
    scip: Seq<ScipEntry>,
    sources: Seq<SourceText>,
    file: Seq<char>,
    line0: u32,
    byte_col: int,
    i: int,
    k: int,
) -> bool {
    let lines = text::split_on(sources[i].text@, '\n');
    let line = text::without_cr(lines[line0 as int]);
    &&& is_source(sources, file, i)
    &&& line0 < lines.len()
    &&& answers(
        scip,
        file,
        (Position { line: line0, character: scip_merge::as_column(scip_merge::utf16_units(line, 0, byte_col)) }),
        k,
    )
}

/// A site has a target exactly if its source holds its line, the index answers for its position, counted
/// in UTF-16, and the answer leads to the target.
pub proof fn law_site_target(
    scip: Seq<ScipEntry>,
    sources: Seq<SourceText>,
    lang: Seq<char>,
    repo: Seq<char>,
    files: Seq<FileEntry>,
    file: Seq<char>,
    line0: u32,
    byte_col: int,
    r: TargetView,
)
    ensures
        scip_merge::site_target(scip, sources, scip_merge::indices_of(lang, repo, files), file, line0, byte_col) == Some(
            r,
        ) <==> exists|i: int, k: int| #[trigger]
            answered(scip, sources, file, line0, byte_col, i, k) && leads_to(lang, repo, files, scip[k].target, r),
{
    let ix = scip_merge::indices_of(lang, repo, files);
    lemma_source_from(sources, file, 0);
    match scip_merge::source_of(sources, file) {
        Some(source) => {
            let i = choose|i: int| #[trigger] is_source(sources, file, i) && sources[i].text@ == source;
            assert forall|j: int| #[trigger] is_source(sources, file, j) implies j == i by {
                if j < i {
                    assert(sources[j].path@ != file);
                }
                if i < j {
                    assert(sources[i].path@ != file);
                }
            }
            let lines = text::split_on(source, '\n');
            if line0 < lines.len() {
                let line = text::without_cr(lines[line0 as int]);
                let pos = scip_merge::position_of(line, line0, byte_col);
                assert(scip_merge::site_position(sources, file, line0, byte_col) == Some(pos));
                lemma_answer_from(scip, file, pos, 0);
                match scip_merge::answer_from(scip, file, pos, 0) {
                    Some(t) => {
                        let k = choose|k: int| #[trigger] answers(scip, file, pos, k) && scip[k].target == t;
                        assert forall|j: int| #[trigger] answers(scip, file, pos, j) implies j == k by {
                            if j < k {
                                assert(scip[j].file@ != file || scip[j].position != pos);
                            }
                            if k < j {
                                assert(scip[k].file@ != file || scip[k].position != pos);
                            }
                        }
                        lemma_mapped(lang, repo, files, t, r);
                        assert(answered(scip, sources, file, line0, byte_col, i, k));
                        assert forall|j: int, l: int| #[trigger]
                            answered(scip, sources, file, line0, byte_col, j, l) implies j == i && l == k by {}
                    },
                    None => {
                        assert forall|j: int, l: int| !#[trigger]
                            answered(scip, sources, file, line0, byte_col, j, l) by {}
                    },
                }
            } else {
                assert forall|j: int, l: int| !#[trigger] answered(scip, sources, file, line0, byte_col, j, l) by {}
            }
        },
        None => {},
    }
}

proof fn lemma_mapped(lang: Seq<char>, repo: Seq<char>, files: Seq<FileEntry>, t: ResolvedTarget, r: TargetView)
    ensures
        scip_merge::mapped(scip_merge::indices_of(lang, repo, files), t) == Some(r) <==> leads_to(
            lang,
            repo,
            files,
            t,
            r,
        ),
{
    let ix = scip_merge::indices_of(lang, repo, files);
    let u = r.uid();
    if !t.is_external {
        match (t.def_file, t.def_position) {
            (Some(file), Some(pos)) => {
                match scip_merge::moniker_name(t.moniker@) {
                    Some(name) => {
                        law_named_definition(lang, repo, files, file@, pos.line + 1, name, u);
                    },
                    None => {
                        law_module_definition(lang, repo, files, file@, u);
                    },
                }
            },
            _ => {},
        }
    }
}

// ----------------------------------------------------------------------------------------------
// Monikers
// ----------------------------------------------------------------------------------------------

/// Whether a text is a word: not empty and without white space.
pub open spec fn is_word(s: Seq<char>) -> bool {
    s.len() > 0 && forall|i: int| 0 <= i < s.len() ==> !text::white(#[trigger] s[i])
}

proof fn lemma_word_end(s: Seq<char>, i: int, j: int)
    requires
        0 <= i <= j <= s.len(),
        forall|k: int| i <= k < j ==> !text::white(#[trigger] s[k]),
        j < s.len() ==> text::white(s[j]),
    ensures
        scip_merge::word_end(s, i) == j,
    decreases j - i,
{
    if i < j {
        lemma_word_end(s, i + 1, j);
    }
}

/// The package that a moniker names is its third word.
pub proof fn law_moniker_package(a: Seq<char>, b: Seq<char>, c: Seq<char>, rest: Seq<char>)
    requires
        is_word(a),
        is_word(b),
        is_word(c),
        rest.len() > 0 ==> text::white(rest[0]),
    ensures
        scip_merge::moniker_package(a + seq![' '] + b + seq![' '] + c + rest) == Some(c),
{
    let s = a + seq![' '] + b + seq![' '] + c + rest;
    let la = a.len() as int;
    let lb = b.len() as int;
    let lc = c.len() as int;
    assert(text::white(' '));
    assert forall|k: int| 0 <= k < la implies !text::white(#[trigger] s[k]) by {
        assert(s[k] == a[k]);
    }
    assert(s[la] == ' ');
    assert forall|k: int| la + 1 <= k < la + 1 + lb implies !text::white(#[trigger] s[k]) by {
        assert(s[k] == b[k - la - 1]);
    }
    assert(s[la + 1 + lb] == ' ');
    let st = la + lb + 2;
    assert forall|k: int| st <= k < st + lc implies !text::white(#[trigger] s[k]) by {
        assert(s[k] == c[k - st]);
    }
    if rest.len() > 0 {
        assert(s[st + lc] == rest[0]);
    }
    lemma_word_end(s, 0, la);
    lemma_word_end(s, la + 1, la + 1 + lb);
    lemma_word_end(s, st, st + lc);
    assert(!text::white(s[0]));
    assert(scip_merge::word_start(s, 0) == 0);
    assert(!text::white(s[la + 1]));
    assert(scip_merge::word_start(s, la + 1) == la + 1);
    assert(scip_merge::word_start(s, la) == la + 1);
    assert(!text::white(s[st]));
    assert(scip_merge::word_start(s, st) == st);
    assert(scip_merge::word_start(s, la + 1 + lb) == st);
    assert(scip_merge::nth_word_start(s, 0) == 0);
    assert(scip_merge::nth_word_start(s, 1) == la + 1);
    assert(scip_merge::nth_word_start(s, 2) == st);
    assert(s.subrange(st, st + lc) =~= c);
}

/// Whether a text can be the name in a descriptor: it starts like an identifier and holds nothing that
/// parts descriptors.
pub open spec fn is_plain_name(name: Seq<char>) -> bool {
    &&& name.len() > 0
    &&& scip_merge::ident_start(name[0])
    &&& name[0] != '['
    &&& !text::white(name.last())
    &&& name.last() != '.'
    &&& forall|i: int|
        0 <= i < name.len() ==> {
            let c = #[trigger] name[i];
            c != '/' && c != '#' && c != ' ' && c != '`' && c != '('
        }
}

proof fn lemma_last_descriptor(head: Seq<char>, name: Seq<char>)
    requires
        head.len() > 0,
        head.last() == '/' || head.last() == '#' || head.last() == ' ',
        forall|i: int| 0 <= i < name.len() ==> #[trigger] name[i] != '/' && name[i] != '#' && name[i] != ' ',
    ensures
        scip_merge::last_descriptor(head + name) == name,
    decreases name.len(),
{
    let s = head + name;
    if name.len() == 0 {
        assert(s =~= head);
        assert(name =~= Seq::empty());
    } else {
        lemma_last_descriptor(head, name.drop_last());
        assert(s.drop_last() =~= head + name.drop_last());
        assert(s.last() == name.last());
        assert(name.drop_last().push(name.last()) =~= name);
    }
}

proof fn lemma_descriptor(head: Seq<char>, name: Seq<char>)
    requires
        head.len() > 0,
        head.last() == '/' || head.last() == '#' || head.last() == ' ',
        is_plain_name(name),
    ensures
        scip_merge::descriptor_name(head + name) == Some(name),
{
    let s = head + name;
    assert(s.last() == name.last());
    assert(text::trimmed_end(s) == s);
    lemma_last_descriptor(head, name);
}

proof fn lemma_untrimmed(s: Seq<char>, c: char)
    requires
        s.len() > 0,
        s.last() != c,
    ensures
        text::trimmed_end_char(s, c) == s,
{
}

/// The moniker of a function or a method names it: what stands between the last separator and the
/// brackets. So does that of a class: what stands before its hash.
pub proof fn law_moniker_name(head: Seq<char>, name: Seq<char>)
    requires
        head.len() > 0,
        head.last() == '/' || head.last() == '#' || head.last() == ' ',
        is_plain_name(name),
    ensures
        scip_merge::moniker_name(head + name + seq!['(', ')', '.']) == Some(name),
        !head.contains('(') ==> scip_merge::moniker_name(head + name + seq!['#']) == Some(name),
{
    let s = head + name;
    lemma_descriptor(head, name);
    let m = s + seq!['(', ')', '.'];
    let t = s + seq!['(', ')'];
    assert(m.drop_last() =~= t);
    assert(m.last() == '.');
    assert(t.last() == ')');
    lemma_untrimmed(t, '.');
    assert(text::trimmed_end_char(m, '.') == t);
    text::lemma_last_position(t, '(');
    assert(t[s.len() as int] == '(');
    assert(t.contains(t[s.len() as int]));
    assert(text::last_position(t, '(') == Some(s.len() as int)) by {
        let i = text::last_position(t, '(')->0;
        if i > s.len() {
            assert(t[i] == ')');
        }
    }
    assert(t.take(s.len() as int) =~= s);
    assert(s.last() == name.last());
    if !head.contains('(') {
        let k = s + seq!['#'];
        assert(k.last() == '#');
        lemma_untrimmed(k, '.');
        text::lemma_last_position(k, '(');
        text::lemma_last_position(k, '#');
        assert(k[s.len() as int] == '#');
        assert(k.contains(k[s.len() as int]));
        assert(text::last_position(k, '(') is None) by {
            if let Some(i) = text::last_position(k, '(') {
                if i < head.len() {
                    assert(head[i] == '(');
                    assert(head.contains(head[i]));
                } else if i < s.len() {
                    assert(name[i - head.len()] == '(');
                }
            }
        }
        assert(text::last_position(k, '#') == Some(s.len() as int));
        assert(k.take(s.len() as int) =~= s);
    }
}

} // verus!
