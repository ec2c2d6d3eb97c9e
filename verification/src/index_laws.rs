//! What a run parses, keeps and builds, told by the files of the repository.
use vstd::prelude::*;

use crate::analysis::{AnalyzedFile, FileEntry, SourceText};
use crate::code_laws;
use crate::contract;
use crate::contract_laws;
use crate::data;
use crate::data::{OrmFileView, SqlFileView};
use crate::data_laws;
use crate::hashing::FileHash;
use crate::index;
use crate::index::{IndexInputs, ParseCacheEntry, PlaneAddition};
use crate::infra;
use crate::infra_laws;
use crate::model;
use crate::model::{EdgeView, GraphView, NodeView};
use crate::order;
use crate::scip_merge::ScipEntry;

verus! {

// ----------------------------------------------------------------------------------------------
// Reuse
// ----------------------------------------------------------------------------------------------

/// Whether entry `i` is what was last kept of a path.
pub open spec fn is_last_kept(cache: Seq<ParseCacheEntry>, path: Seq<char>, i: int) -> bool {
    &&& 0 <= i < cache.len()
    &&& cache[i].path@ == path
    &&& forall|k: int| i < k < cache.len() ==> (#[trigger] cache[k]).path@ != path
}

/// Whether a file need not be parsed: what was last kept of its path is of its content.
pub open spec fn is_unchanged(cache: Seq<ParseCacheEntry>, file: FileHash) -> bool {
    exists|i: int| #[trigger] is_last_kept(cache, file.path@, i) && cache[i].hash@ == file.hash@
}

proof fn lemma_cached(cache: Seq<ParseCacheEntry>, path: Seq<char>, n: nat)
    requires
        n <= cache.len(),
        forall|k: int| n <= k < cache.len() ==> (#[trigger] cache[k]).path@ != path,
    ensures
        match index::cached(cache, path, n) {
            Some(e) => exists|i: int| #[trigger] is_last_kept(cache, path, i) && cache[i] == e,
            None => forall|i: int| !#[trigger] is_last_kept(cache, path, i),
        },
    decreases n,
{
    if n > 0 {
        if cache[n - 1].path@ == path {
            assert(is_last_kept(cache, path, n - 1));
        } else {
            lemma_cached(cache, path, (n - 1) as nat);
        }
    }
}

/// What is reused of a file: the analysis that was last kept of its path, exactly where it is of the same
/// content.
pub proof fn law_reusable(cache: Seq<ParseCacheEntry>, file: FileHash, a: AnalyzedFile)
    ensures
        index::reusable(cache, file) == Some(a) <==> exists|i: int| #[trigger]
            is_last_kept(cache, file.path@, i) && cache[i].hash@ == file.hash@ && cache[i].analyzed == a,
        index::reusable(cache, file) is Some == is_unchanged(cache, file),
{
    lemma_cached(cache, file.path@, cache.len());
    if let Some(e) = index::cached(cache, file.path@, cache.len()) {
        let i = choose|i: int| #[trigger] is_last_kept(cache, file.path@, i) && cache[i] == e;
        assert forall|k: int| #[trigger] is_last_kept(cache, file.path@, k) implies k == i by {
            if k < i {
                assert(cache[i].path@ != file.path@);
            }
            if i < k {
                assert(cache[k].path@ != file.path@);
            }
        }
    }
}

proof fn lemma_unchanged(cache: Seq<ParseCacheEntry>, file: FileHash)
    ensures
        index::reusable(cache, file) is Some == is_unchanged(cache, file),
{
    lemma_cached(cache, file.path@, cache.len());
    if let Some(e) = index::cached(cache, file.path@, cache.len()) {
        let i = choose|i: int| #[trigger] is_last_kept(cache, file.path@, i) && cache[i] == e;
        assert(is_last_kept(cache, file.path@, i));
        law_reusable(cache, file, e.analyzed);
    }
}

proof fn lemma_unparsed(files: Seq<FileHash>, cache: Seq<ParseCacheEntry>, n: nat)
    requires
        n <= files.len(),
    ensures
        order::picks(
            index::unparsed_upto(files, cache, n),
            n,
            |i: int| !is_unchanged(cache, files[i]),
            |i: int| i as usize,
        ),
    decreases n,
{
    let hit = |i: int| !is_unchanged(cache, files[i]);
    let item = |i: int| i as usize;
    if n > 0 {
        let m = (n - 1) as nat;
        lemma_unparsed(files, cache, m);
        lemma_unchanged(cache, files[m as int]);
        order::lemma_picks_next(
            index::unparsed_upto(files, cache, m),
            index::unparsed_upto(files, cache, n),
            m,
            hit,
            item,
        );
    } else {
        order::lemma_picks_none(hit, item);
    }
}

/// The files that are parsed are those that have changed, in their order.
pub proof fn law_files_to_parse(files: Seq<FileHash>, cache: Seq<ParseCacheEntry>)
    ensures
        order::picks(
            index::unparsed(files, cache),
            files.len(),
            |i: int| !is_unchanged(cache, files[i]),
            |i: int| i as usize,
        ),
{
    lemma_unparsed(files, cache, files.len());
}

/// The analysis of a file is what is reused of it, or that which was made of it: the one whose place
/// among those made is the number of changed files before it.
pub proof fn law_analyses(files: Seq<FileHash>, cache: Seq<ParseCacheEntry>, fresh: Seq<AnalyzedFile>, i: int)
    requires
        0 <= i < files.len(),
    ensures
        ({
            let all = index::analyses_of(files, cache, fresh);
            &&& all.len() == files.len()
            &&& all[i].path@ == files[i].path@
            &&& is_unchanged(cache, files[i]) ==> exists|k: int| #[trigger]
                is_last_kept(cache, files[i].path@, k) && cache[k].analyzed == all[i].file
            &&& !is_unchanged(cache, files[i]) ==> all[i].file == fresh[order::counted(
                |j: int| !is_unchanged(cache, files[j]),
                i as nat,
            ) as int]
        }),
{
    law_reusable(cache, files[i], index::analysis_at(files, cache, fresh, i));
    lemma_unparsed(files, cache, i as nat);
}

/// Whether hash `i` is the last of a path.
pub open spec fn is_last_hash(hashes: Seq<FileHash>, path: Seq<char>, i: int) -> bool {
    &&& 0 <= i < hashes.len()
    &&& hashes[i].path@ == path
    &&& forall|k: int| i < k < hashes.len() ==> (#[trigger] hashes[k]).path@ != path
}

/// Whether a file has a hash.
pub open spec fn is_hashed(hashes: Seq<FileHash>, path: Seq<char>) -> bool {
    exists|i: int| 0 <= i < hashes.len() && (#[trigger] hashes[i]).path@ == path
}

proof fn lemma_hashed(hashes: Seq<FileHash>, path: Seq<char>, n: nat)
    requires
        n <= hashes.len(),
        forall|k: int| n <= k < hashes.len() ==> (#[trigger] hashes[k]).path@ != path,
    ensures
        match index::hashed(hashes, path, n) {
            Some(h) => is_hashed(hashes, path) && exists|i: int| #[trigger]
                is_last_hash(hashes, path, i) && hashes[i] == h,
            None => !is_hashed(hashes, path),
        },
    decreases n,
{
    if n > 0 {
        if hashes[n - 1].path@ == path {
            assert(is_last_hash(hashes, path, n - 1));
        } else {
            lemma_hashed(hashes, path, (n - 1) as nat);
        }
    }
}

proof fn lemma_kept(hashes: Seq<FileHash>, files: Seq<FileEntry>, n: nat)
    requires
        n <= files.len(),
    ensures
        order::picks(
            index::kept(hashes, files, n),
            n,
            |i: int| is_hashed(hashes, files[i].path@),
            |i: int|
                ParseCacheEntry {
                    path: files[i].path,
                    hash: index::hashed(hashes, files[i].path@, hashes.len())->0.hash,
                    analyzed: files[i].file,
                },
        ),
    decreases n,
{
    let hit = |i: int| is_hashed(hashes, files[i].path@);
    let item = |i: int|
        ParseCacheEntry {
            path: files[i].path,
            hash: index::hashed(hashes, files[i].path@, hashes.len())->0.hash,
            analyzed: files[i].file,
        };
    if n > 0 {
        let m = (n - 1) as nat;
        lemma_kept(hashes, files, m);
        lemma_hashed(hashes, files[m as int].path@, hashes.len());
        order::lemma_picks_next(index::kept(hashes, files, m), index::kept(hashes, files, n), m, hit, item);
    } else {
        order::lemma_picks_none(hit, item);
    }
}

/// Whether an entry keeps the analysis of file `i` under its hash.
pub open spec fn keeps_file(hashes: Seq<FileHash>, f: FileEntry, e: ParseCacheEntry) -> bool {
    &&& e.path@ == f.path@
    &&& e.analyzed == f.file
    &&& exists|k: int| #[trigger] is_last_hash(hashes, f.path@, k) && e.hash@ == hashes[k].hash@
}

/// Of every file that has a hash, its analysis is kept under that hash; and nothing else is kept.
pub proof fn law_kept(hashes: Seq<FileHash>, files: Seq<FileEntry>)
    ensures
        ({
            let all = index::kept(hashes, files, files.len());
            &&& all.len() == order::counted(|i: int| is_hashed(hashes, files[i].path@), files.len())
            &&& forall|i: int|
                0 <= i < files.len() && is_hashed(hashes, (#[trigger] files[i]).path@) ==> keeps_file(
                    hashes,
                    files[i],
                    all[order::counted(|j: int| is_hashed(hashes, files[j].path@), i as nat) as int],
                )
        }),
{
    lemma_kept(hashes, files, files.len());
    let all = index::kept(hashes, files, files.len());
    let hit = |i: int| is_hashed(hashes, files[i].path@);
    assert forall|i: int| 0 <= i < files.len() && is_hashed(hashes, (#[trigger] files[i]).path@) implies keeps_file(
        hashes,
        files[i],
        all[order::counted(|j: int| is_hashed(hashes, files[j].path@), i as nat) as int],
    ) by {
        assert(hit(i));
        lemma_hashed(hashes, files[i].path@, hashes.len());
    }
}

// ----------------------------------------------------------------------------------------------
// Files
// ----------------------------------------------------------------------------------------------

proof fn lemma_documents(files: Seq<SourceText>, schema: Seq<bool>, n: nat)
    requires
        n <= files.len(),
        files.len() == schema.len(),
    ensures
        order::picks(index::documents_upto(files, schema, n), n, |i: int| !schema[i], |i: int| files[i]),
    decreases n,
{
    let hit = |i: int| !schema[i];
    let item = |i: int| files[i];
    if n > 0 {
        let m = (n - 1) as nat;
        lemma_documents(files, schema, m);
        order::lemma_picks_next(
            index::documents_upto(files, schema, m),
            index::documents_upto(files, schema, n),
            m,
            hit,
            item,
        );
    } else {
        order::lemma_picks_none(hit, item);
    }
}

/// The documents among GraphQL files are those that are no schemas, in their order.
pub proof fn law_documents(files: Seq<SourceText>, schema: Seq<bool>)
    requires
        files.len() == schema.len(),
    ensures
        order::picks(
            index::documents_upto(files, schema, files.len()),
            files.len(),
            |i: int| !schema[i],
            |i: int| files[i],
        ),
{
    lemma_documents(files, schema, files.len());
}

/// Files are sorted by path: none is lost, none is added, and no file comes before one of a lesser path.
pub proof fn law_sorted_files(files: Seq<FileEntry>)
    ensures
        index::sorted_files(files).len() == files.len(),
        forall|f: FileEntry| #[trigger] index::sorted_files(files).contains(f) == files.contains(f),
        forall|i: int, j: int|
            0 <= i < j < files.len() ==> !order::text_lt(
                (#[trigger] index::sorted_files(files)[j]).path@,
                (#[trigger] index::sorted_files(files)[i]).path@,
            ),
{
    let keys = index::path_keys(files);
    order::law_sorting_keeps(files, keys);
    order::law_stable_order_exists(keys);
    let at = index::path_order(files);
    let s = index::sorted_files(files);
    assert forall|i: int, j: int| 0 <= i < j < files.len() implies !order::text_lt(
        (#[trigger] s[j]).path@,
        (#[trigger] s[i]).path@,
    ) by {
        assert(order::stands_before(keys, at[i], at[j]));
        order::lemma_text_total(s[i].path@, s[j].path@);
    }
}

/// Whether a file of a repository has this language tag.
pub open spec fn is_tagged(x: IndexInputs, f: FileEntry, tag: Seq<char>) -> bool {
    ||| tag == "ts"@ && (x.ts@.contains(f) || x.documents@.contains(f))
    ||| tag == "py"@ && x.py@.contains(f)
    ||| tag == "cs"@ && x.cs@.contains(f)
    ||| tag == "rust"@ && x.rust@.contains(f)
}

proof fn lemma_by_language(x: IndexInputs, i: int)
    requires
        0 <= i < index::files_by_language(x).len(),
    ensures
        is_tagged(x, index::files_by_language(x)[i], index::language_at(x, i)),
{
    law_sorted_files(x.ts@ + x.documents@);
    let code = index::code_files(x);
    let all = index::files_by_language(x);
    let a = code.len();
    let b = a + x.py@.len();
    let c = b + x.cs@.len();
    if i < a {
        assert(all[i] == code[i]);
        assert(code.contains(code[i]));
        model::lemma_joined(x.ts@, x.documents@, code[i]);
    } else if i < b {
        assert(all[i] == x.py@[i - a]);
        assert(x.py@.contains(x.py@[i - a]));
    } else if i < c {
        assert(all[i] == x.cs@[i - b]);
        assert(x.cs@.contains(x.cs@[i - b]));
    } else {
        assert(all[i] == x.rust@[i - c]);
        assert(x.rust@.contains(x.rust@[i - c]));
    }
}

proof fn lemma_language_found(x: IndexInputs, f: FileEntry, tag: Seq<char>) -> (i: int)
    requires
        is_tagged(x, f, tag),
    ensures
        0 <= i < index::files_by_language(x).len(),
        index::files_by_language(x)[i] == f,
        index::language_at(x, i) == tag,
{
    law_sorted_files(x.ts@ + x.documents@);
    let code = index::code_files(x);
    let all = index::files_by_language(x);
    let a = code.len();
    let b = a + x.py@.len();
    let c = b + x.cs@.len();
    if tag == "ts"@ && (x.ts@.contains(f) || x.documents@.contains(f)) {
        model::lemma_joined(x.ts@, x.documents@, f);
        assert(code.contains(f));
        let i = choose|i: int| 0 <= i < code.len() && code[i] == f;
        assert(all[i] == f);
        i
    } else if tag == "py"@ && x.py@.contains(f) {
        let i = choose|i: int| 0 <= i < x.py@.len() && x.py@[i] == f;
        assert(all[a + i] == f);
        a + i
    } else if tag == "cs"@ && x.cs@.contains(f) {
        let i = choose|i: int| 0 <= i < x.cs@.len() && x.cs@[i] == f;
        assert(all[b + i] == f);
        b + i
    } else {
        let i = choose|i: int| 0 <= i < x.rust@.len() && x.rust@[i] == f;
        assert(all[c + i] == f);
        c + i
    }
}

/// All files of a repository are listed by path, each with the tag of the language that it is of.
pub proof fn law_all_files(x: IndexInputs)
    ensures
        index::all_files(x).len() == x.ts@.len() + x.documents@.len() + x.py@.len() + x.cs@.len() + x.rust@.len(),
        index::all_tags(x).len() == index::all_files(x).len(),
        forall|i: int|
            0 <= i < index::all_files(x).len() ==> is_tagged(
                x,
                #[trigger] index::all_files(x)[i],
                index::all_tags(x)[i],
            ),
        forall|f: FileEntry, tag: Seq<char>| #[trigger]
            is_tagged(x, f, tag) ==> exists|i: int|
                0 <= i < index::all_files(x).len() && #[trigger] index::all_files(x)[i] == f && index::all_tags(x)[i]
                    == tag,
        forall|i: int, j: int|
            0 <= i < j < index::all_files(x).len() ==> !order::text_lt(
                (#[trigger] index::all_files(x)[j]).path@,
                (#[trigger] index::all_files(x)[i]).path@,
            ),
{
    let list = index::files_by_language(x);
    let keys = index::path_keys(list);
    let at = index::path_order(list);
    let all = index::all_files(x);
    law_sorted_files(x.ts@ + x.documents@);
    law_sorted_files(list);
    order::law_stable_order_exists(keys);
    assert forall|i: int| 0 <= i < all.len() implies is_tagged(x, #[trigger] all[i], index::all_tags(x)[i]) by {
        lemma_by_language(x, at[i]);
    }
    assert forall|f: FileEntry, tag: Seq<char>| #[trigger] is_tagged(x, f, tag) implies exists|i: int|
        0 <= i < all.len() && #[trigger] all[i] == f && index::all_tags(x)[i] == tag by {
        let p = lemma_language_found(x, f, tag);
        order::lemma_lists_all(keys, at, p);
        let i = choose|i: int| 0 <= i < at.len() && at[i] == p;
        assert(all[i] == f);
    }
}

// ----------------------------------------------------------------------------------------------
// What the code says of data
// ----------------------------------------------------------------------------------------------

/// Whether a tag is that of a language that is read for SQL and model classes.
pub open spec fn is_language(tag: Seq<char>) -> bool {
    tag == "ts"@ || tag == "py"@ || tag == "cs"@ || tag == "rust"@
}

proof fn lemma_sql(files: Seq<FileEntry>, tags: Seq<Seq<char>>, lang: Seq<char>, n: nat, v: SqlFileView)
    requires
        n <= files.len(),
        files.len() == tags.len(),
    ensures
        index::sql_upto(files, tags, lang, n).contains(v) <==> exists|i: int|
            0 <= i < n && tags[i] == lang && (#[trigger] files[i]).file.sql_candidates@.len() > 0 && v == (SqlFileView {
                lang,
                path: files[i].path@,
                candidates: files[i].file.sql_candidates@,
            }),
    decreases n,
{
    if n > 0 {
        let m = (n - 1) as nat;
        lemma_sql(files, tags, lang, m, v);
        let f = files[m as int];
        model::lemma_pushed(
            index::sql_upto(files, tags, lang, m),
            SqlFileView { lang, path: f.path@, candidates: f.file.sql_candidates@ },
            v,
        );
    }
}

/// The SQL of the code is that of every file that has any, with the tag and the path of the file.
pub proof fn law_code_sql(files: Seq<FileEntry>, tags: Seq<Seq<char>>, v: SqlFileView)
    requires
        files.len() == tags.len(),
    ensures
        index::code_sql(files, tags).contains(v) <==> exists|i: int|
            0 <= i < files.len() && is_language(tags[i]) && (#[trigger] files[i]).file.sql_candidates@.len() > 0 && v == (
            SqlFileView { lang: tags[i], path: files[i].path@, candidates: files[i].file.sql_candidates@ }),
{
    let n = files.len();
    let a = index::sql_upto(files, tags, "ts"@, n);
    let b = index::sql_upto(files, tags, "py"@, n);
    let c = index::sql_upto(files, tags, "cs"@, n);
    let d = index::sql_upto(files, tags, "rust"@, n);
    lemma_sql(files, tags, "ts"@, n, v);
    lemma_sql(files, tags, "py"@, n, v);
    lemma_sql(files, tags, "cs"@, n, v);
    lemma_sql(files, tags, "rust"@, n, v);
    model::lemma_joined(a, b, v);
    model::lemma_joined(a + b, c, v);
    model::lemma_joined(a + b + c, d, v);
}

proof fn lemma_orm(files: Seq<FileEntry>, tags: Seq<Seq<char>>, lang: Seq<char>, n: nat, v: OrmFileView)
    requires
        n <= files.len(),
        files.len() == tags.len(),
    ensures
        index::orm_upto(files, tags, lang, n).contains(v) <==> exists|i: int|
            0 <= i < n && tags[i] == lang && (#[trigger] files[i]).file.orm_models@.len() > 0 && v == (OrmFileView {
                lang,
                path: files[i].path@,
                hints: files[i].file.orm_models@,
            }),
    decreases n,
{
    if n > 0 {
        let m = (n - 1) as nat;
        lemma_orm(files, tags, lang, m, v);
        let f = files[m as int];
        model::lemma_pushed(
            index::orm_upto(files, tags, lang, m),
            OrmFileView { lang, path: f.path@, hints: f.file.orm_models@ },
            v,
        );
    }
}

/// The model classes of the code are those of every file that has any, with the tag and the path of the
/// file.
pub proof fn law_code_orm(files: Seq<FileEntry>, tags: Seq<Seq<char>>, v: OrmFileView)
    requires
        files.len() == tags.len(),
    ensures
        index::code_orm(files, tags).contains(v) <==> exists|i: int|
            0 <= i < files.len() && is_language(tags[i]) && (#[trigger] files[i]).file.orm_models@.len() > 0 && v == (
            OrmFileView { lang: tags[i], path: files[i].path@, hints: files[i].file.orm_models@ }),
{
    let n = files.len();
    let a = index::orm_upto(files, tags, "ts"@, n);
    let b = index::orm_upto(files, tags, "py"@, n);
    let c = index::orm_upto(files, tags, "cs"@, n);
    let d = index::orm_upto(files, tags, "rust"@, n);
    lemma_orm(files, tags, "ts"@, n, v);
    lemma_orm(files, tags, "py"@, n, v);
    lemma_orm(files, tags, "cs"@, n, v);
    lemma_orm(files, tags, "rust"@, n, v);
    model::lemma_joined(a, b, v);
    model::lemma_joined(a + b, c, v);
    model::lemma_joined(a + b + c, d, v);
}

// ----------------------------------------------------------------------------------------------
// Planes
// ----------------------------------------------------------------------------------------------

/// Whether one of the languages adds a node.
pub open spec fn adds_node(planes: Seq<PlaneAddition>, n: int, x: NodeView) -> bool {
    exists|k: int, i: int|
        0 <= k < n && 0 <= i < planes[k].nodes@.len() && (#[trigger] planes[k].nodes@[i])@ == x
}

/// Whether one of the languages adds an edge.
pub open spec fn adds_edge(planes: Seq<PlaneAddition>, n: int, e: EdgeView) -> bool {
    exists|k: int, i: int|
        0 <= k < n && 0 <= i < planes[k].edges@.len() && (#[trigger] planes[k].edges@[i])@ == e
}

proof fn lemma_with_nodes(g: GraphView, nodes: Seq<NodeView>, n: nat)
    requires
        n <= nodes.len(),
    ensures
        model::with_nodes(g, nodes, n).edges == g.edges,
        forall|u: Seq<char>| #[trigger] g.has(u) ==> model::with_nodes(g, nodes, n).has(u),
        forall|i: int| 0 <= i < n ==> model::with_nodes(g, nodes, n).has((#[trigger] nodes[i]).uid),
        forall|x: NodeView| #[trigger]
            model::with_nodes(g, nodes, n).nodes.contains(x) ==> g.nodes.contains(x) || nodes.contains(x),
    decreases n,
{
    if n > 0 {
        let m = (n - 1) as nat;
        lemma_with_nodes(g, nodes, m);
        let b = model::with_nodes(g, nodes, m);
        model::law_with_node(b, nodes[m as int]);
        model::lemma_noded(b, nodes[m as int]);
    }
}

proof fn lemma_planes(g: GraphView, planes: Seq<PlaneAddition>, n: nat)
    requires
        n <= planes.len(),
    ensures
        ({
            let h = index::with_planes(g, planes, n);
            &&& forall|u: Seq<char>| #[trigger] g.has(u) ==> h.has(u)
            &&& forall|x: NodeView| #[trigger] adds_node(planes, n as int, x) ==> h.has(x.uid)
            &&& forall|x: NodeView| #[trigger]
                h.nodes.contains(x) ==> g.nodes.contains(x) || adds_node(planes, n as int, x)
            &&& forall|e: EdgeView| #[trigger]
                h.edges.contains(e) <==> g.edges.contains(e) || adds_edge(planes, n as int, e)
        }),
    decreases n,
{
    let h = index::with_planes(g, planes, n);
    if n > 0 {
        let m = (n - 1) as nat;
        let last = n - 1;
        lemma_planes(g, planes, m);
        let b = index::with_planes(g, planes, m);
        let nodes = model::node_views(planes[last].nodes@);
        let edges = model::edge_views(planes[last].edges@);
        lemma_with_nodes(b, nodes, nodes.len());
        let c = model::with_nodes(b, nodes, nodes.len());
        assert(forall|u: Seq<char>| #[trigger] h.has(u) == c.has(u));
        assert forall|x: NodeView| #[trigger] adds_node(planes, n as int, x) implies h.has(x.uid) by {
            let (k, i) = choose|k: int, i: int|
                0 <= k < n && 0 <= i < planes[k].nodes@.len() && (#[trigger] planes[k].nodes@[i])@ == x;
            if k == last {
                assert(nodes[i] == x);
                assert(c.has(nodes[i].uid));
            } else {
                assert(adds_node(planes, m as int, x));
                assert(b.has(x.uid));
                assert(c.has(x.uid));
            }
        }
        assert forall|x: NodeView| #[trigger] h.nodes.contains(x) implies g.nodes.contains(x) || adds_node(
            planes,
            n as int,
            x,
        ) by {
            assert(c.nodes.contains(x));
            if nodes.contains(x) {
                let i = choose|i: int| 0 <= i < nodes.len() && nodes[i] == x;
                assert(planes[last].nodes@[i]@ == x);
            } else {
                assert(b.nodes.contains(x));
                if adds_node(planes, m as int, x) {
                    let (k, i) = choose|k: int, i: int|
                        0 <= k < m && 0 <= i < planes[k].nodes@.len() && (#[trigger] planes[k].nodes@[i])@ == x;
                    assert(planes[k].nodes@[i]@ == x);
                }
            }
        }
        assert forall|e: EdgeView| #[trigger] h.edges.contains(e) <==> g.edges.contains(e) || adds_edge(
            planes,
            n as int,
            e,
        ) by {
            model::lemma_joined(b.edges, edges, e);
            assert(b.edges.contains(e) <==> g.edges.contains(e) || adds_edge(planes, m as int, e));
            if edges.contains(e) {
                let i = choose|i: int| 0 <= i < edges.len() && edges[i] == e;
                assert(planes[last].edges@[i]@ == e);
            }
            if adds_edge(planes, m as int, e) {
                let (k, i) = choose|k: int, i: int|
                    0 <= k < m && 0 <= i < planes[k].edges@.len() && (#[trigger] planes[k].edges@[i])@ == e;
                assert(planes[k].edges@[i]@ == e);
            }
            if adds_edge(planes, n as int, e) {
                let (k, i) = choose|k: int, i: int|
                    0 <= k < n && 0 <= i < planes[k].edges@.len() && (#[trigger] planes[k].edges@[i])@ == e;
                if k == last {
                    assert(edges[i] == e);
                } else {
                    assert(planes[k].edges@[i]@ == e);
                }
            }
        }
    }
}

/// What the other languages add: every node and every edge of theirs, and nothing else.
pub proof fn law_planes_added(g: GraphView, planes: Seq<PlaneAddition>)
    ensures
        ({
            let h = index::with_planes(g, planes, planes.len());
            &&& forall|u: Seq<char>| #[trigger] g.has(u) ==> h.has(u)
            &&& forall|x: NodeView| #[trigger] adds_node(planes, planes.len() as int, x) ==> h.has(x.uid)
            &&& forall|x: NodeView| #[trigger]
                h.nodes.contains(x) ==> g.nodes.contains(x) || adds_node(planes, planes.len() as int, x)
            &&& forall|e: EdgeView| #[trigger]
                h.edges.contains(e) <==> g.edges.contains(e) || adds_edge(planes, planes.len() as int, e)
        }),
{
    lemma_planes(g, planes, planes.len());
}

/// The graph of a repository has what every plane tells: the modules of its files, what the other
/// languages add, the operations, the resources of the templates, the units, and the tables.
pub proof fn law_index_has_all_planes(repo: Seq<char>, x: IndexInputs, scip: Option<Seq<ScipEntry>>)
    requires
        index::planes_banded(x.planes@),
        contract::signals_gradable(x.signals@),
    ensures
        ({
            let g = index::index_state(repo, x, scip).data.graph;
            let ts = x.cloudformation@ + x.terraform@;
            &&& forall|f: FileEntry| (#[trigger] x.ts@.contains(f)) ==> g.has(code_laws::module_at(repo, f))
            &&& forall|f: FileEntry| (#[trigger] x.documents@.contains(f)) ==> g.has(code_laws::module_at(repo, f))
            &&& forall|n: NodeView| #[trigger] adds_node(x.planes@, x.planes@.len() as int, n) ==> g.has(n.uid)
            &&& forall|e: EdgeView| #[trigger] adds_edge(x.planes@, x.planes@.len() as int, e) ==> g.edges.contains(e)
            &&& forall|o: int|
                0 <= o < x.operations@.len() ==> g.has(contract_laws::op_uid(repo, #[trigger] x.operations@[o]))
            &&& forall|t: int, r: int, n: NodeView|
                0 <= t < ts.len() && #[trigger] infra_laws::is_resource_node(repo, ts[t], r, n) ==> g.has(n.uid)
            &&& forall|i: int, n: NodeView|
                0 <= i < x.units.units@.len() && #[trigger] infra_laws::is_unit_node(repo, x.units.units@[i], n) ==> g.has(
                    n.uid,
                )
            &&& forall|i: int, t: int, table: Seq<char>| #[trigger]
                data_laws::table_named(x.schemas.schemas@, i, t, table) ==> g.has(
                    data_laws::table_at(repo, x.schemas.schemas@[i].path@, table),
                )
        }),
{
    let s = index::index_state(repo, x, scip);
    let g = s.data.graph;
    let ts = x.cloudformation@ + x.terraform@;
    let files = index::all_files(x);
    let code = index::code_files(x);
    index::law_index_sound(repo, x, scip);
    infra::law_infra_plane_sound(s.contract, repo, ts, files);
    infra::law_terragrunt_plane_sound(s.infra.graph, repo, x.units.units@);
    let sql = index::code_sql(files, index::all_tags(x));
    let orm = index::code_orm(files, index::all_tags(x));
    data::law_data_plane_sound(s.terragrunt.0, repo, x.schemas.schemas@, sql, orm);
    model::lemma_keeps_trans(s.infra.graph, s.terragrunt.0, g);
    assert(model::extends(s.infra.graph, g));
    assert(model::extends(s.terragrunt.0, g));
    let p = index::with_planes(s.code.0, x.planes@, x.planes@.len());
    lemma_planes(s.code.0, x.planes@, x.planes@.len());
    contract::law_contract_plane_sound(p, repo, files, x.operations@, x.signals@);
    contract_laws::law_contract_nodes(p, repo, files, x.operations@, x.signals@);
    infra_laws::law_infra_nodes(s.contract, repo, ts, files);
    infra_laws::law_terragrunt_edges(s.infra.graph, repo, x.units.units@);
    data_laws::law_data_nodes(s.terragrunt.0, repo, x.schemas.schemas@, sql, orm);
    code_laws::law_code_structure(repo, code, scip, x.sources@);
    law_sorted_files(x.ts@ + x.documents@);
    assert forall|f: FileEntry| code.contains(f) implies g.has(#[trigger] code_laws::module_at(repo, f)) by {
        let k = choose|k: int| 0 <= k < code.len() && code[k] == f;
        assert(code_laws::placed_module(repo, code, k, s.code.0));
    }
    assert forall|f: FileEntry| (#[trigger] x.ts@.contains(f)) implies g.has(code_laws::module_at(repo, f)) by {
        model::lemma_joined(x.ts@, x.documents@, f);
        assert(code.contains(f));
    }
    assert forall|f: FileEntry| (#[trigger] x.documents@.contains(f)) implies g.has(code_laws::module_at(repo, f)) by {
        model::lemma_joined(x.ts@, x.documents@, f);
        assert(code.contains(f));
    }
    assert forall|n: NodeView| #[trigger] adds_node(x.planes@, x.planes@.len() as int, n) implies g.has(n.uid) by {
        assert(p.has(n.uid));
        assert(s.contract.has(n.uid));
    }
    assert forall|e: EdgeView| #[trigger] adds_edge(x.planes@, x.planes@.len() as int, e) implies g.edges.contains(e) by {
        assert(p.edges.contains(e));
        let i = choose|i: int| 0 <= i < p.edges.len() && p.edges[i] == e;
        assert(s.contract.edges[i] == e);
        assert(g.edges[i] == e);
    }
}

} // verus!
