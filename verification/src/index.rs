//! Indexing a repository: what is reused, what is parsed, and what comes out.
use vstd::prelude::*;

use crate::analysis::{AnalyzedFile, FileEntry, GqlDocument, SourceText};
use crate::code_plane;
use crate::code_plane::CoverageView;
use crate::contract;
use crate::contract::{FileSignals, OperationDef};
use crate::data;
use crate::data::{CodeOrmFile, CodeSqlFile, DataLinkCoverage, DataState, OrmFileView, SqlFileView};
use crate::estate_marker::EstateMarker;
use crate::hashing::FileHash;
use crate::infra;
use crate::infra::{DepCounts, InfraLinkCoverage, InfraState, InfraTemplate, TerragruntCoverage};
use crate::manifest::WorkspaceManifest;
use crate::model;
use crate::model::{Edge, Graph, GraphView, Node};
use crate::order;
use crate::order::{SortKey, SortKeyView};
use crate::readings;
use crate::readings::{SchemaSet, UnitSet};
use crate::resolve_mode::{ResolveMode, ScipError, ScipOutcome};
use crate::scip_merge::ScipEntry;
use crate::text;

verus! {

/// What an index run did.
#[derive(Debug, PartialEq, Eq)]
pub struct IndexStats {
    pub files_indexed: usize,
    pub nodes: usize,
    pub edges: usize,
    /// Files that were parsed.
    pub files_parsed: usize,
    /// Files whose analysis was taken from the cache.
    pub files_reused: usize,
    pub resolution_mode: ResolveMode,
    /// Whether precise resolution was wanted and is missing.
    pub degraded: bool,
    pub sites_total: usize,
    pub sites_resolved: usize,
    pub sites_heuristic: usize,
    pub sites_ambiguous: usize,
    pub infra_link: InfraLinkCoverage,
    pub terragrunt: TerragruntCoverage,
    pub data_link: DataLinkCoverage,
    /// One line for each schema that could not be read, up to a cap.
    pub data_diagnostics: Vec<String>,
    /// One line for each template or unit that could not be read, up to a cap.
    pub infra_diagnostics: Vec<String>,
}

/// Whether these are the statistics of a graph of so many nodes and edges, and of nothing else.
pub open spec fn counts_only(s: IndexStats, nodes: usize, edges: usize) -> bool {
    &&& s.nodes == nodes
    &&& s.edges == edges
    &&& s.files_indexed == 0
    &&& s.files_parsed == 0
    &&& s.files_reused == 0
    &&& s.resolution_mode == ResolveMode::Auto
    &&& !s.degraded
    &&& s.sites_total == 0
    &&& s.sites_resolved == 0
    &&& s.sites_heuristic == 0
    &&& s.sites_ambiguous == 0
    &&& s.infra_link.counts(crate::infra::InfraCounts::zero(), 0)
    &&& s.terragrunt.units_detected == 0
    &&& s.terragrunt.counts(crate::infra::DepCounts::zero())
    &&& s.data_link.counts(crate::data::DataCounts::zero())
    &&& s.data_link.schemas_detected == 0
    &&& s.data_link.schemas_failed == 0
    &&& s.data_link.statements_skipped == 0
    &&& s.data_diagnostics@.len() == 0
    &&& s.infra_diagnostics@.len() == 0
}

impl Default for IndexStats {
    fn default() -> (r: IndexStats)
        ensures
            counts_only(r, 0, 0),
    {
        IndexStats {
            files_indexed: 0,
            nodes: 0,
            edges: 0,
            files_parsed: 0,
            files_reused: 0,
            resolution_mode: ResolveMode::Auto,
            degraded: false,
            sites_total: 0,
            sites_resolved: 0,
            sites_heuristic: 0,
            sites_ambiguous: 0,
            infra_link: InfraLinkCoverage::default(),
            terragrunt: TerragruntCoverage::default(),
            data_link: DataLinkCoverage::default(),
            data_diagnostics: Vec::new(),
            infra_diagnostics: Vec::new(),
        }
    }
}

/// Why an index run failed.
#[derive(Debug, PartialEq, Eq)]
pub enum IndexError {
    Io { path: String, reason: String },
    Store(String),
    /// Precise resolution is needed and failed.
    Scip(ScipError),
}

impl IndexError {
    /// What there is to say of the error.
    pub open spec fn text(self) -> Seq<char> {
        match self {
            IndexError::Io { path, reason } => "io error at "@ + path@ + ": "@ + reason@,
            IndexError::Store(s) => "store error: "@ + s@,
            IndexError::Scip(e) => "precise resolution required but failed: "@ + e.text(),
        }
    }

    /// What there is to say of the error.
    pub fn message(&self) -> (r: String)
        ensures
            r@ == self.text(),
    {
        match self {
            IndexError::Io { path, reason } => {
                let mut s = text::concat3("io error at ", path.as_str(), ": ");
                s.append(reason.as_str());
                s
            },
            IndexError::Store(s) => text::concat2("store error: ", s.as_str()),
            IndexError::Scip(e) => {
                let m = e.message();
                text::concat2("precise resolution required but failed: ", m.as_str())
            },
        }
    }
}

// ----------------------------------------------------------------------------------------------
// Reuse
// ----------------------------------------------------------------------------------------------

/// What an earlier run kept of a file.
#[derive(Debug, PartialEq, Eq)]
pub struct ParseCacheEntry {
    pub path: String,
    pub hash: String,
    pub analyzed: AnalyzedFile,
}

/// The last of the first `n` entries that is of this path.
pub open spec fn cached(cache: Seq<ParseCacheEntry>, path: Seq<char>, n: nat) -> Option<ParseCacheEntry>
    decreases n,
{
    if n == 0 {
        None
    } else if cache[n - 1].path@ == path {
        Some(cache[n - 1])
    } else {
        cached(cache, path, (n - 1) as nat)
    }
}

/// What can be reused of a file: what was kept of it, where its content has not changed.
pub open spec fn reusable(cache: Seq<ParseCacheEntry>, file: FileHash) -> Option<AnalyzedFile> {
    match cached(cache, file.path@, cache.len()) {
        Some(e) => if e.hash@ == file.hash@ {
            Some(e.analyzed)
        } else {
            None
        },
        None => None,
    }
}

/// Those of the first `n` files that have to be parsed.
pub open spec fn unparsed_upto(files: Seq<FileHash>, cache: Seq<ParseCacheEntry>, n: nat) -> Seq<usize>
    decreases n,
{
    if n == 0 {
        Seq::empty()
    } else {
        let rest = unparsed_upto(files, cache, (n - 1) as nat);
        if reusable(cache, files[n - 1]) is None {
            rest.push((n - 1) as usize)
        } else {
            rest
        }
    }
}

/// Those of the files that have to be parsed.
pub open spec fn unparsed(files: Seq<FileHash>, cache: Seq<ParseCacheEntry>) -> Seq<usize> {
    unparsed_upto(files, cache, files.len())
}

proof fn lemma_unparsed_len(files: Seq<FileHash>, cache: Seq<ParseCacheEntry>, n: nat)
    ensures
        unparsed_upto(files, cache, n).len() <= n,
    decreases n,
{
    if n > 0 {
        lemma_unparsed_len(files, cache, (n - 1) as nat);
    }
}

fn find_cached(cache: &Vec<ParseCacheEntry>, path: &str) -> (r: Option<usize>)
    ensures
        match r {
            Some(i) => i < cache@.len() && cache@[i as int].path@ == path@ && cached(cache@, path@, cache@.len())
                == Some(cache@[i as int]),
            None => cached(cache@, path@, cache@.len()) is None,
        },
{
    let mut n: usize = cache.len();
    while n > 0
        invariant
            n <= cache@.len(),
            cached(cache@, path@, cache@.len()) == cached(cache@, path@, n as nat),
        decreases n,
    {
        if text::same(cache[n - 1].path.as_str(), path) {
            return Some(n - 1);
        }
        n = n - 1;
    }
    None
}

/// The files that have to be parsed, by position: those that the cache does not hold, and those
/// whose content has changed.
pub fn files_to_parse(files: &Vec<FileHash>, cache: &Vec<ParseCacheEntry>) -> (r: Vec<usize>)
    ensures
        r@ == unparsed(files@, cache@),
{
    let mut out: Vec<usize> = Vec::new();
    let mut i: usize = 0;
    while i < files.len()
        invariant
            i <= files@.len(),
            out@ == unparsed_upto(files@, cache@, i as nat),
        decreases files@.len() - i,
    {
        let hit = match find_cached(cache, files[i].path.as_str()) {
            Some(at) => text::same(cache[at].hash.as_str(), files[i].hash.as_str()),
            None => false,
        };
        if !hit {
            out.push(i);
        }
        i = i + 1;
    }
    out
}

/// The analysis of file `i`: what is reused of it, else what was made of it in its turn.
pub open spec fn analysis_at(
    files: Seq<FileHash>,
    cache: Seq<ParseCacheEntry>,
    fresh: Seq<AnalyzedFile>,
    i: int,
) -> AnalyzedFile {
    match reusable(cache, files[i]) {
        Some(a) => a,
        None => fresh[unparsed_upto(files, cache, i as nat).len() as int],
    }
}

/// The files with their analyses.
pub open spec fn analyses_of(files: Seq<FileHash>, cache: Seq<ParseCacheEntry>, fresh: Seq<AnalyzedFile>) -> Seq<
    FileEntry,
> {
    Seq::new(files.len(), |i: int| FileEntry { path: files[i].path, file: analysis_at(files, cache, fresh, i) })
}

/// Whether no path occurs twice.
pub open spec fn distinct_paths(files: Seq<FileHash>) -> bool {
    forall|i: int, j: int| 0 <= i < j < files.len() ==> (#[trigger] files[i]).path@ != (#[trigger] files[j]).path@
}

/// The analyses of the files of a repository, and where they came from.
#[derive(Debug, PartialEq, Eq)]
pub struct Analyses {
    pub files: Vec<FileEntry>,
    pub parsed: usize,
    pub reused: usize,
}

proof fn lemma_cached_removal(cache: Seq<ParseCacheEntry>, at: int, path: Seq<char>, n: nat)
    requires
        0 <= at < cache.len(),
        cache[at].path@ != path,
        n <= cache.len(),
    ensures
        cached(cache, path, n) == cached(cache.remove(at), path, if n > at { (n - 1) as nat } else { n }),
    decreases n,
{
    if n > 0 {
        lemma_cached_removal(cache, at, path, (n - 1) as nat);
        let short = cache.remove(at);
        if n - 1 < at {
            assert(short[n - 1] == cache[n - 1]);
        } else if n - 1 > at {
            assert(short[n - 2] == cache[n - 1]);
        }
    }
}

/// Puts the analyses of the files together: what is reused, and in the place of each file that
/// had to be parsed what was made of it. What the cache holds of other files is dropped.
pub fn merge_analyses(files: &Vec<FileHash>, cache: Vec<ParseCacheEntry>, fresh: Vec<AnalyzedFile>) -> (r: Analyses)
    requires
        distinct_paths(files@),
        fresh@.len() == unparsed(files@, cache@).len(),
    ensures
        r.files@ == analyses_of(files@, cache@, fresh@),
        r.parsed == unparsed(files@, cache@).len(),
        r.parsed + r.reused == files@.len(),
{
    let ghost held = cache@;
    let ghost made = fresh@;
    let mut left = cache;
    let mut todo = fresh;
    let mut out: Vec<FileEntry> = Vec::new();
    let mut parsed: usize = 0;
    let mut reused: usize = 0;
    let mut i: usize = 0;
    assert(todo@ =~= made.skip(0));
    while i < files.len()
        invariant
            i <= files@.len(),
            distinct_paths(files@),
            made.len() == unparsed(files@, held).len(),
            parsed == unparsed_upto(files@, held, i as nat).len(),
            parsed <= made.len(),
            parsed + reused == i,
            todo@ == made.skip(parsed as int),
            out@.len() == i,
            forall|j: int|
                0 <= j < i ==> (#[trigger] out@[j]).path == files@[j].path && out@[j].file == analysis_at(
                    files@,
                    held,
                    made,
                    j,
                ),
            forall|j: int|
                i <= j < files@.len() ==> cached(left@, (#[trigger] files@[j]).path@, left@.len()) == cached(
                    held,
                    files@[j].path@,
                    held.len(),
                ),
        decreases files@.len() - i,
    {
        let file = &files[i];
        let ghost before = left@;
        assert(cached(left@, files@[i as int].path@, left@.len()) == cached(held, files@[i as int].path@, held.len()));
        let hit: Option<usize> = match find_cached(&left, file.path.as_str()) {
            Some(at) => if text::same(left[at].hash.as_str(), file.hash.as_str()) {
                Some(at)
            } else {
                None
            },
            None => None,
        };
        match hit {
            Some(at) => {
                let entry = left.remove(at);
                proof {
                    assert forall|j: int| i + 1 <= j < files@.len() implies cached(
                        left@,
                        (#[trigger] files@[j]).path@,
                        left@.len(),
                    ) == cached(held, files@[j].path@, held.len()) by {
                        assert(files@[i as int].path@ != files@[j].path@);
                        lemma_cached_removal(before, at as int, files@[j].path@, before.len());
                        assert(left@ =~= before.remove(at as int));
                    }
                }
                out.push(FileEntry { path: file.path.clone(), file: entry.analyzed });
                reused = reused + 1;
            },
            None => {
                proof {
                    lemma_unparsed_monotone(files@, held, (i + 1) as nat, files@.len());
                }
                let analyzed = todo.remove(0);
                assert(analyzed == made[parsed as int]);
                assert(todo@ =~= made.skip(parsed as int + 1));
                out.push(FileEntry { path: file.path.clone(), file: analyzed });
                parsed = parsed + 1;
            },
        }
        i = i + 1;
    }
    assert(out@ =~= analyses_of(files@, held, made));
    Analyses { files: out, parsed, reused }
}

proof fn lemma_unparsed_monotone(files: Seq<FileHash>, cache: Seq<ParseCacheEntry>, n: nat, m: nat)
    requires
        n <= m,
    ensures
        unparsed_upto(files, cache, n).len() <= unparsed_upto(files, cache, m).len(),
    decreases m,
{
    if n < m {
        lemma_unparsed_monotone(files, cache, n, (m - 1) as nat);
    }
}

/// Whether everything in the cache is what `analyze` makes of the path and the hash it is kept
/// under.
pub open spec fn faithful(cache: Seq<ParseCacheEntry>, analyze: spec_fn(Seq<char>, Seq<char>) -> AnalyzedFile) -> bool {
    forall|i: int|
        0 <= i < cache.len() ==> (#[trigger] cache[i]).analyzed == analyze(cache[i].path@, cache[i].hash@)
}

/// Whether `fresh` is what `analyze` makes of the files that have to be parsed.
pub open spec fn made_by(
    files: Seq<FileHash>,
    cache: Seq<ParseCacheEntry>,
    fresh: Seq<AnalyzedFile>,
    analyze: spec_fn(Seq<char>, Seq<char>) -> AnalyzedFile,
) -> bool {
    &&& fresh.len() == unparsed(files, cache).len()
    &&& forall|k: int|
        0 <= k < fresh.len() ==> (#[trigger] fresh[k]) == analyze(
            files[unparsed(files, cache)[k] as int].path@,
            files[unparsed(files, cache)[k] as int].hash@,
        )
}

proof fn lemma_cached_entry(cache: Seq<ParseCacheEntry>, path: Seq<char>, n: nat)
    requires
        n <= cache.len(),
    ensures
        cached(cache, path, n) matches Some(e) ==> e.path@ == path && exists|i: int|
            0 <= i < cache.len() && (#[trigger] cache[i]) == e,
    decreases n,
{
    if n > 0 {
        lemma_cached_entry(cache, path, (n - 1) as nat);
        if cache[n - 1].path@ == path {
            assert(cache[n - 1] == cached(cache, path, n)->Some_0);
        }
    }
}

proof fn lemma_unparsed_at(files: Seq<FileHash>, cache: Seq<ParseCacheEntry>, i: int, n: nat)
    requires
        0 <= i < n <= files.len(),
        files.len() <= usize::MAX,
        reusable(cache, files[i]) is None,
    ensures
        unparsed_upto(files, cache, i as nat).len() < unparsed_upto(files, cache, n).len(),
        unparsed_upto(files, cache, n)[unparsed_upto(files, cache, i as nat).len() as int] == i,
    decreases n,
{
    if n > i + 1 {
        lemma_unparsed_at(files, cache, i, (n - 1) as nat);
    }
}

/// An incremental run gives what a full run gives: where analysing a file depends on its path and
/// content alone, every file has its analysis, whatever the cache holds.
pub proof fn law_incremental_equals_full(
    files: Seq<FileHash>,
    cache: Seq<ParseCacheEntry>,
    fresh: Seq<AnalyzedFile>,
    analyze: spec_fn(Seq<char>, Seq<char>) -> AnalyzedFile,
    i: int,
)
    requires
        files.len() <= usize::MAX,
        faithful(cache, analyze),
        made_by(files, cache, fresh, analyze),
        0 <= i < files.len(),
    ensures
        analysis_at(files, cache, fresh, i) == analyze(files[i].path@, files[i].hash@),
{
    lemma_cached_entry(cache, files[i].path@, cache.len());
    match reusable(cache, files[i]) {
        Some(a) => {
            let e = cached(cache, files[i].path@, cache.len())->Some_0;
            let j = choose|j: int| 0 <= j < cache.len() && (#[trigger] cache[j]) == e;
            assert(cache[j].analyzed == analyze(cache[j].path@, cache[j].hash@));
        },
        None => {
            lemma_unparsed_at(files, cache, i, files.len());
            let k = unparsed_upto(files, cache, i as nat).len() as int;
            assert(fresh[k] == analyze(
                files[unparsed(files, cache)[k] as int].path@,
                files[unparsed(files, cache)[k] as int].hash@,
            ));
        },
    }
}

/// With an empty cache every file is parsed.
pub proof fn law_first_run_parses_all(files: Seq<FileHash>, n: nat)
    ensures
        unparsed_upto(files, Seq::empty(), n).len() == n,
    decreases n,
{
    if n > 0 {
        law_first_run_parses_all(files, (n - 1) as nat);
    }
}

/// The last of the first `n` hashes that is of this path.
pub open spec fn hashed(hashes: Seq<FileHash>, path: Seq<char>, n: nat) -> Option<FileHash>
    decreases n,
{
    if n == 0 {
        None
    } else if hashes[n - 1].path@ == path {
        Some(hashes[n - 1])
    } else {
        hashed(hashes, path, (n - 1) as nat)
    }
}

/// What is kept of the first `n` files for the next run: of each that has a hash, its analysis under
/// that hash.
pub open spec fn kept(hashes: Seq<FileHash>, files: Seq<FileEntry>, n: nat) -> Seq<ParseCacheEntry>
    decreases n,
{
    if n == 0 {
        Seq::empty()
    } else {
        let rest = kept(hashes, files, (n - 1) as nat);
        let f = files[n - 1];
        match hashed(hashes, f.path@, hashes.len()) {
            Some(h) => rest.push(ParseCacheEntry { path: f.path, hash: h.hash, analyzed: f.file }),
            None => rest,
        }
    }
}

fn find_hash(hashes: &Vec<FileHash>, path: &str) -> (r: Option<usize>)
    ensures
        match r {
            Some(i) => i < hashes@.len() && hashed(hashes@, path@, hashes@.len()) == Some(hashes@[i as int]),
            None => hashed(hashes@, path@, hashes@.len()) is None,
        },
{
    let mut n: usize = hashes.len();
    while n > 0
        invariant
            n <= hashes@.len(),
            hashed(hashes@, path@, hashes@.len()) == hashed(hashes@, path@, n as nat),
        decreases n,
    {
        if text::same(hashes[n - 1].path.as_str(), path) {
            return Some(n - 1);
        }
        n = n - 1;
    }
    None
}

/// What is kept of the files for the next run.
pub fn keep_analyses(hashes: &Vec<FileHash>, files: Vec<FileEntry>) -> (r: Vec<ParseCacheEntry>)
    ensures
        r@ == kept(hashes@, files@, files@.len()),
{
    let ghost all = files@;
    let ghost mut n: nat = 0;
    let mut left = files;
    let mut out: Vec<ParseCacheEntry> = Vec::new();
    assert(left@ =~= all.skip(0));
    while left.len() > 0
        invariant
            n <= all.len(),
            left@ == all.skip(n as int),
            out@ == kept(hashes@, all, n),
        decreases left@.len(),
    {
        let f = left.remove(0);
        assert(f == all[n as int]);
        assert(left@ =~= all.skip(n as int + 1));
        match find_hash(hashes, f.path.as_str()) {
            Some(i) => {
                out.push(ParseCacheEntry { path: f.path, hash: hashes[i].hash.clone(), analyzed: f.file });
            },
            None => {},
        }
        proof {
            n = n + 1;
        }
    }
    out
}

proof fn lemma_hashed(hashes: Seq<FileHash>, i: int, n: nat)
    requires
        0 <= i < n <= hashes.len(),
        distinct_paths(hashes),
    ensures
        hashed(hashes, hashes[i].path@, n) == Some(hashes[i]),
    decreases n,
{
    if n - 1 > i {
        assert(hashes[i].path@ != hashes[n - 1].path@);
        lemma_hashed(hashes, i, (n - 1) as nat);
    }
}

proof fn lemma_kept(hashes: Seq<FileHash>, files: Seq<FileEntry>, n: nat, h: FileHash)
    requires
        n <= files.len(),
        hashed(hashes, h.path@, hashes.len()) == Some(h),
    ensures
        ({
            let cache = kept(hashes, files, n);
            match cached(cache, h.path@, cache.len()) {
                Some(e) => e.hash@ == h.hash@,
                None => forall|k: int| 0 <= k < n ==> (#[trigger] files[k]).path@ != h.path@,
            }
        }),
    decreases n,
{
    if n > 0 {
        lemma_kept(hashes, files, (n - 1) as nat, h);
        let rest = kept(hashes, files, (n - 1) as nat);
        let cache = kept(hashes, files, n);
        let f = files[n - 1];
        match hashed(hashes, f.path@, hashes.len()) {
            Some(g) => {
                if f.path@ != h.path@ {
                    lemma_cached_prefix(rest, cache, h.path@, rest.len());
                }
            },
            None => {},
        }
    }
}

proof fn lemma_cached_prefix(a: Seq<ParseCacheEntry>, b: Seq<ParseCacheEntry>, path: Seq<char>, n: nat)
    requires
        n <= a.len() <= b.len(),
        forall|i: int| 0 <= i < a.len() ==> #[trigger] a[i] == b[i],
    ensures
        cached(a, path, n) == cached(b, path, n),
    decreases n,
{
    if n > 0 {
        lemma_cached_prefix(a, b, path, (n - 1) as nat);
        assert(a[n - 1] == b[n - 1]);
    }
}

/// A rerun over files that have not changed, with what the last run kept, parses nothing: `hashes`
/// are those of the last run, and `files` those that it analyzed.
pub proof fn law_rerun_parses_nothing(
    hashes: Seq<FileHash>,
    files: Seq<FileEntry>,
    again: Seq<FileHash>,
    n: nat,
)
    requires
        distinct_paths(hashes),
        n <= again.len(),
        forall|i: int| 0 <= i < again.len() ==> hashes.contains(#[trigger] again[i]),
        forall|i: int| 0 <= i < again.len() ==> has_entry(files, (#[trigger] again[i]).path@),
    ensures
        unparsed_upto(again, kept(hashes, files, files.len()), n).len() == 0,
    decreases n,
{
    if n > 0 {
        law_rerun_parses_nothing(hashes, files, again, (n - 1) as nat);
        let h = again[n - 1];
        assert(hashes.contains(again[n - 1]));
        let i = choose|i: int| 0 <= i < hashes.len() && hashes[i] == h;
        lemma_hashed(hashes, i, hashes.len());
        lemma_kept(hashes, files, files.len(), h);
        assert(has_entry(files, again[n - 1].path@));
        let k = choose|k: int| 0 <= k < files.len() && (#[trigger] files[k]).path@ == h.path@;
        assert(files[k].path@ == h.path@);
    }
}

/// Whether a file of this path is among these.
pub open spec fn has_entry(files: Seq<FileEntry>, path: Seq<char>) -> bool {
    exists|k: int| 0 <= k < files.len() && (#[trigger] files[k]).path@ == path
}

// ----------------------------------------------------------------------------------------------
// Documents
// ----------------------------------------------------------------------------------------------

/// The analysis of a file that is one GraphQL document.
pub fn doc_analyze(content: &str) -> (r: AnalyzedFile)
    ensures
        r.gql_documents@.len() == 1,
        r.gql_documents@[0].text@ == content@,
        r.gql_documents@[0].interpolation_free,
        r.gql_documents@[0].tagged,
        r.gql_documents@[0].enclosing_fqn@.len() == 0,
        r.symbols@.len() == 0,
        r.imports@.len() == 0,
        r.calls@.len() == 0,
        r.routes@.len() == 0,
        r.http_calls@.len() == 0,
        r.resolver_entries@.len() == 0,
        r.sql_candidates@.len() == 0,
        r.orm_models@.len() == 0,
{
    let mut file = AnalyzedFile::default();
    let doc = GqlDocument {
        text: content.to_owned(),
        interpolation_free: true,
        tagged: true,
        enclosing_fqn: "".to_owned(),
    };
    proof {
        reveal_strlit("");
    }
    file.gql_documents.push(doc);
    file
}

/// Those of the first `n` files that are no schemas.
pub open spec fn documents_upto(files: Seq<SourceText>, schema: Seq<bool>, n: nat) -> Seq<SourceText>
    decreases n,
{
    if n == 0 {
        Seq::empty()
    } else {
        let rest = documents_upto(files, schema, (n - 1) as nat);
        if schema[n - 1] {
            rest
        } else {
            rest.push(files[n - 1])
        }
    }
}

/// The documents among GraphQL files: a schema defines operations, and is none. `schema` says of
/// each file whether it is one.
pub fn operation_documents(files: Vec<SourceText>, schema: &Vec<bool>) -> (r: Vec<SourceText>)
    requires
        schema@.len() == files@.len(),
    ensures
        r@ == documents_upto(files@, schema@, files@.len()),
{
    let ghost all = files@;
    let mut left = files;
    let mut out: Vec<SourceText> = Vec::new();
    let mut i: usize = 0;
    assert(left@ =~= all.skip(0));
    while i < schema.len()
        invariant
            i <= schema@.len(),
            schema@.len() == all.len(),
            left@ == all.skip(i as int),
            out@ == documents_upto(all, schema@, i as nat),
        decreases schema@.len() - i,
    {
        let file = left.remove(0);
        assert(file == all[i as int]);
        assert(left@ =~= all.skip(i + 1));
        if !schema[i] {
            out.push(file);
        }
        i = i + 1;
    }
    out
}

// ----------------------------------------------------------------------------------------------
// Lists of files
// ----------------------------------------------------------------------------------------------

/// The key that files are sorted by.
pub open spec fn path_key(path: Seq<char>) -> SortKeyView {
    SortKeyView { rank: 0, first: path, second: ""@, row: 0, col: 0 }
}

/// The keys of a list of files.
pub open spec fn path_keys(files: Seq<FileEntry>) -> Seq<SortKeyView> {
    Seq::new(files.len(), |i: int| path_key(files[i].path@))
}

/// The order of a list of files by path.
pub open spec fn path_order(files: Seq<FileEntry>) -> Seq<int> {
    order::order_of(path_keys(files))
}

/// A list of files, sorted by path.
pub open spec fn sorted_files(files: Seq<FileEntry>) -> Seq<FileEntry> {
    order::arranged(files, path_order(files))
}

fn sort_files(files: Vec<FileEntry>) -> (r: (Vec<FileEntry>, Vec<usize>))
    ensures
        r.0@ == sorted_files(files@),
        order::positions(r.1@) == path_order(files@),
        r.1@.len() == files@.len(),
        forall|i: int| 0 <= i < r.1@.len() ==> 0 <= #[trigger] r.1@[i] < files@.len(),
{
    let ghost all = files@;
    let mut keys: Vec<SortKey> = Vec::new();
    let mut i: usize = 0;
    while i < files.len()
        invariant
            i <= files@.len(),
            files@ == all,
            keys@.len() == i,
            forall|j: int| 0 <= j < i ==> (#[trigger] keys@[j])@ == path_key(all[j].path@),
        decreases files@.len() - i,
    {
        keys.push(SortKey { rank: 0, first: files[i].path.clone(), second: "".to_owned(), row: 0, col: 0 });
        i = i + 1;
    }
    assert(order::key_views(keys@) =~= path_keys(all));
    let at = order::sorted_positions(&keys);
    proof {
        order::lemma_order_of(path_keys(all), order::positions(at@));
    }
    let mut left = files;
    let mut slots: Vec<Option<FileEntry>> = Vec::new();
    let ghost mut n: nat = 0;
    assert(left@ =~= all.skip(0));
    while left.len() > 0
        invariant
            n <= all.len(),
            left@ == all.skip(n as int),
            slots@.len() == n,
            forall|j: int| 0 <= j < n ==> (#[trigger] slots@[j]) == Some(all[j]),
        decreases left@.len(),
    {
        let file = left.remove(0);
        assert(file == all[n as int]);
        assert(left@ =~= all.skip(n as int + 1));
        slots.push(Some(file));
        proof {
            n = n + 1;
        }
    }
    let mut out: Vec<FileEntry> = Vec::new();
    let mut k: usize = 0;
    while k < at.len()
        invariant
            k <= at@.len(),
            order::stable_order(path_keys(all), order::positions(at@)),
            slots@.len() == all.len(),
            path_keys(all).len() == all.len(),
            forall|j: int| 0 <= j < at@.len() ==> #[trigger] at@[j] < all.len(),
            out@ == order::arranged(all, order::positions(at@)).take(k as int),
            forall|j: int| k <= j < at@.len() ==> slots@[#[trigger] at@[j] as int] == Some(all[at@[j] as int]),
        decreases at@.len() - k,
    {
        let p: usize = at[k];
        let slot = slots[p].take();
        assert(slot == Some(all[p as int]));
        assert forall|j: int| k + 1 <= j < at@.len() implies slots@[#[trigger] at@[j] as int] == Some(
            all[at@[j] as int],
        ) by {
            let pos = order::positions(at@);
            assert(order::stands_before(path_keys(all), pos[k as int], pos[j]));
            if at@[j] == p {
                order::lemma_key_total(path_keys(all)[p as int], path_keys(all)[p as int]);
            }
        }
        match slot {
            Some(file) => {
                out.push(file);
            },
            None => {},
        }
        assert(out@ =~= order::arranged(all, order::positions(at@)).take(k + 1));
        k = k + 1;
    }
    let ghost sorted = order::arranged(all, order::positions(at@));
    assert(sorted.take(at@.len() as int) =~= sorted);
    (out, at)
}

// ----------------------------------------------------------------------------------------------
// Assembly
// ----------------------------------------------------------------------------------------------

/// What a language adds to the graph in a world of its own.
#[derive(Debug, PartialEq, Eq)]
pub struct PlaneAddition {
    pub nodes: Vec<Node>,
    pub edges: Vec<Edge>,
}

/// All that goes into the graph of a repository. The files of each list stand in the order of
/// their paths, and no path occurs in two lists.
#[derive(Debug, PartialEq, Eq)]
pub struct IndexInputs {
    /// The TypeScript and JavaScript files.
    pub ts: Vec<FileEntry>,
    /// The GraphQL documents.
    pub documents: Vec<FileEntry>,
    pub py: Vec<FileEntry>,
    pub cs: Vec<FileEntry>,
    pub rust: Vec<FileEntry>,
    /// The sources of the TypeScript and JavaScript files.
    pub sources: Vec<SourceText>,
    /// What the other languages add, in their order.
    pub planes: Vec<PlaneAddition>,
    pub operations: Vec<OperationDef>,
    /// What the files call, document by document and call by call.
    pub signals: Vec<FileSignals>,
    pub cloudformation: Vec<InfraTemplate>,
    /// The templates of Terraform, with plans in place of what they resolve.
    pub terraform: Vec<InfraTemplate>,
    pub template_diagnostics: Vec<String>,
    pub units: UnitSet,
    pub schemas: SchemaSet,
}

/// What came of indexing a repository.
#[derive(Debug, PartialEq, Eq)]
pub struct Indexed {
    pub graph: Graph,
    pub stats: IndexStats,
    /// All files, sorted by path.
    pub files: Vec<FileEntry>,
}

/// The files that the code plane is built from.
pub open spec fn code_files(x: IndexInputs) -> Seq<FileEntry> {
    sorted_files(x.ts@ + x.documents@)
}

/// The files of all languages, by language.
pub open spec fn files_by_language(x: IndexInputs) -> Seq<FileEntry> {
    code_files(x) + x.py@ + x.cs@ + x.rust@
}

/// The language tag of file `i` in the list by language.
pub open spec fn language_at(x: IndexInputs, i: int) -> Seq<char> {
    let a = code_files(x).len();
    let b = a + x.py@.len();
    let c = b + x.cs@.len();
    if i < a {
        "ts"@
    } else if i < b {
        "py"@
    } else if i < c {
        "cs"@
    } else {
        "rust"@
    }
}

/// The files of all languages, sorted by path.
pub open spec fn all_files(x: IndexInputs) -> Seq<FileEntry> {
    sorted_files(files_by_language(x))
}

/// The language tags of the files of all languages, sorted by path.
pub open spec fn all_tags(x: IndexInputs) -> Seq<Seq<char>> {
    let at = path_order(files_by_language(x));
    Seq::new(at.len(), |i: int| language_at(x, at[i]))
}

/// The graph with what the first `n` languages add.
pub open spec fn with_planes(g: GraphView, planes: Seq<PlaneAddition>, n: nat) -> GraphView
    decreases n,
{
    if n == 0 {
        g
    } else {
        model::with_all(
            with_planes(g, planes, (n - 1) as nat),
            model::node_views(planes[n - 1].nodes@),
            model::edge_views(planes[n - 1].edges@),
        )
    }
}

/// The SQL of those of the first `n` files that are of a language and have any.
pub open spec fn sql_upto(files: Seq<FileEntry>, tags: Seq<Seq<char>>, lang: Seq<char>, n: nat) -> Seq<SqlFileView>
    decreases n,
{
    if n == 0 {
        Seq::empty()
    } else {
        let rest = sql_upto(files, tags, lang, (n - 1) as nat);
        let f = files[n - 1];
        if tags[n - 1] == lang && f.file.sql_candidates@.len() > 0 {
            rest.push(SqlFileView { lang, path: f.path@, candidates: f.file.sql_candidates@ })
        } else {
            rest
        }
    }
}

/// The SQL of the code, by language.
pub open spec fn code_sql(files: Seq<FileEntry>, tags: Seq<Seq<char>>) -> Seq<SqlFileView> {
    sql_upto(files, tags, "ts"@, files.len()) + sql_upto(files, tags, "py"@, files.len()) + sql_upto(
        files,
        tags,
        "cs"@,
        files.len(),
    ) + sql_upto(files, tags, "rust"@, files.len())
}

/// The model classes of those of the first `n` files that are of a language and have any.
pub open spec fn orm_upto(files: Seq<FileEntry>, tags: Seq<Seq<char>>, lang: Seq<char>, n: nat) -> Seq<OrmFileView>
    decreases n,
{
    if n == 0 {
        Seq::empty()
    } else {
        let rest = orm_upto(files, tags, lang, (n - 1) as nat);
        let f = files[n - 1];
        if tags[n - 1] == lang && f.file.orm_models@.len() > 0 {
            rest.push(OrmFileView { lang, path: f.path@, hints: f.file.orm_models@ })
        } else {
            rest
        }
    }
}

/// The model classes of the code, by language.
pub open spec fn code_orm(files: Seq<FileEntry>, tags: Seq<Seq<char>>) -> Seq<OrmFileView> {
    orm_upto(files, tags, "ts"@, files.len()) + orm_upto(files, tags, "py"@, files.len()) + orm_upto(
        files,
        tags,
        "cs"@,
        files.len(),
    ) + orm_upto(files, tags, "rust"@, files.len())
}

/// The texts of a list of tags.
pub open spec fn tag_views(tags: Seq<&'static str>) -> Seq<Seq<char>> {
    Seq::new(tags.len(), |i: int| tags[i]@)
}

fn append_sql<'a>(out: &mut Vec<CodeSqlFile<'a>>, files: &'a Vec<FileEntry>, tags: &Vec<&'static str>, lang: &'static str)
    requires
        tags@.len() == files@.len(),
    ensures
        data::sql_views(final(out)@) == data::sql_views(old(out)@) + sql_upto(
            files@,
            tag_views(tags@),
            lang@,
            files@.len(),
        ),
{
    let ghost base = data::sql_views(out@);
    let ghost tv = tag_views(tags@);
    let mut i: usize = 0;
    assert(data::sql_views(out@) =~= base + sql_upto(files@, tv, lang@, 0));
    while i < files.len()
        invariant
            i <= files@.len(),
            tags@.len() == files@.len(),
            tv == tag_views(tags@),
            data::sql_views(out@) == base + sql_upto(files@, tv, lang@, i as nat),
        decreases files@.len() - i,
    {
        let f = &files[i];
        assert(tv[i as int] == tags@[i as int]@);
        if text::same(tags[i], lang) && f.file.sql_candidates.len() > 0 {
            let ghost before = data::sql_views(out@);
            let item = CodeSqlFile { lang, path: f.path.as_str(), candidates: &f.file.sql_candidates };
            out.push(item);
            assert(data::sql_views(out@) =~= before.push(item@));
            assert(data::sql_views(out@) =~= base + sql_upto(files@, tv, lang@, (i + 1) as nat));
        }
        i = i + 1;
    }
}

/// The SQL of the code, language by language.
pub fn collect_code_sql<'a>(files: &'a Vec<FileEntry>, tags: &Vec<&'static str>) -> (r: Vec<CodeSqlFile<'a>>)
    requires
        tags@.len() == files@.len(),
    ensures
        data::sql_views(r@) == code_sql(files@, tag_views(tags@)),
{
    let mut out: Vec<CodeSqlFile<'a>> = Vec::new();
    assert(data::sql_views(out@) =~= Seq::<SqlFileView>::empty());
    append_sql(&mut out, files, tags, "ts");
    append_sql(&mut out, files, tags, "py");
    append_sql(&mut out, files, tags, "cs");
    append_sql(&mut out, files, tags, "rust");
    assert(data::sql_views(out@) =~= code_sql(files@, tag_views(tags@)));
    out
}

fn append_orm<'a>(out: &mut Vec<CodeOrmFile<'a>>, files: &'a Vec<FileEntry>, tags: &Vec<&'static str>, lang: &'static str)
    requires
        tags@.len() == files@.len(),
    ensures
        data::orm_views(final(out)@) == data::orm_views(old(out)@) + orm_upto(
            files@,
            tag_views(tags@),
            lang@,
            files@.len(),
        ),
{
    let ghost base = data::orm_views(out@);
    let ghost tv = tag_views(tags@);
    let mut i: usize = 0;
    assert(data::orm_views(out@) =~= base + orm_upto(files@, tv, lang@, 0));
    while i < files.len()
        invariant
            i <= files@.len(),
            tags@.len() == files@.len(),
            tv == tag_views(tags@),
            data::orm_views(out@) == base + orm_upto(files@, tv, lang@, i as nat),
        decreases files@.len() - i,
    {
        let f = &files[i];
        assert(tv[i as int] == tags@[i as int]@);
        if text::same(tags[i], lang) && f.file.orm_models.len() > 0 {
            let ghost before = data::orm_views(out@);
            let item = CodeOrmFile { lang, path: f.path.as_str(), hints: &f.file.orm_models };
            out.push(item);
            assert(data::orm_views(out@) =~= before.push(item@));
            assert(data::orm_views(out@) =~= base + orm_upto(files@, tv, lang@, (i + 1) as nat));
        }
        i = i + 1;
    }
}

/// The model classes of the code, language by language.
pub fn collect_code_orm<'a>(files: &'a Vec<FileEntry>, tags: &Vec<&'static str>) -> (r: Vec<CodeOrmFile<'a>>)
    requires
        tags@.len() == files@.len(),
    ensures
        data::orm_views(r@) == code_orm(files@, tag_views(tags@)),
{
    let mut out: Vec<CodeOrmFile<'a>> = Vec::new();
    assert(data::orm_views(out@) =~= Seq::<OrmFileView>::empty());
    append_orm(&mut out, files, tags, "ts");
    append_orm(&mut out, files, tags, "py");
    append_orm(&mut out, files, tags, "cs");
    append_orm(&mut out, files, tags, "rust");
    assert(data::orm_views(out@) =~= code_orm(files@, tag_views(tags@)));
    out
}

/// The planes of the graph of a repository, in the order in which they are built.
pub struct IndexState {
    pub code: (GraphView, CoverageView),
    pub contract: GraphView,
    pub infra: InfraState,
    pub terragrunt: (GraphView, DepCounts),
    pub data: DataState,
}

/// The planes of the graph of a repository: the code, what the other languages add, the contracts,
/// the infrastructure, the Terragrunt units and the data. Each builds on what stands before it.
pub open spec fn index_state(repo: Seq<char>, x: IndexInputs, scip: Option<Seq<ScipEntry>>) -> IndexState {
    let code = code_plane::code_plane(repo, code_files(x), scip, x.sources@);
    let files = all_files(x);
    let contract = contract::contract_plane(
        with_planes(code.0, x.planes@, x.planes@.len()),
        repo,
        files,
        x.operations@,
        x.signals@,
    );
    let infra = infra::infra_plane(contract, repo, x.cloudformation@ + x.terraform@, files);
    let terragrunt = infra::terragrunt_plane(infra.graph, repo, x.units.units@);
    let data = data::data_plane(
        terragrunt.0,
        repo,
        x.schemas.schemas@,
        code_sql(files, all_tags(x)),
        code_orm(files, all_tags(x)),
    );
    IndexState { code, contract, infra, terragrunt, data }
}

/// The answers of precise resolution, where there are any.
pub open spec fn answers(scip: ScipOutcome) -> Option<Seq<ScipEntry>> {
    match scip.resolver {
        Some(table) => Some(table.entries@),
        None => None,
    }
}

/// Whether these are the statistics of a run.
pub open spec fn describes(
    s: IndexStats,
    x: IndexInputs,
    state: IndexState,
    mode: ResolveMode,
    degraded: bool,
    parsed: usize,
    reused: usize,
) -> bool {
    &&& s.files_indexed == x.ts@.len() + x.documents@.len() + x.py@.len() + x.cs@.len() + x.rust@.len()
    &&& s.nodes == model::cap(state.data.graph.nodes.len())
    &&& s.edges == model::cap(state.data.graph.edges.len())
    &&& s.files_parsed == parsed
    &&& s.files_reused == reused
    &&& s.resolution_mode == mode
    &&& s.degraded == degraded
    &&& s.sites_total == model::cap(state.code.1.total)
    &&& s.sites_resolved == model::cap(state.code.1.resolved)
    &&& s.sites_heuristic == model::cap(state.code.1.heuristic)
    &&& s.sites_ambiguous == model::cap(state.code.1.ambiguous)
    &&& s.infra_link.templates_failed == x.template_diagnostics@.len()
    &&& (InfraLinkCoverage { templates_failed: 0, ..s.infra_link }).counts(
        state.infra.counts,
        (x.cloudformation@.len() + x.terraform@.len()) as nat,
    )
    &&& s.terragrunt.units_detected == x.units.units@.len()
    &&& s.terragrunt.counts(state.terragrunt.1)
    &&& s.data_link.schemas_detected == x.schemas.schemas@.len()
    &&& s.data_link.schemas_failed == x.schemas.diagnostics@.len()
    &&& s.data_link.statements_skipped == model::cap(data::skipped(x.schemas.schemas@, x.schemas.schemas@.len()))
    &&& s.data_link.counts(state.data.counts)
    &&& text::views(s.infra_diagnostics@) == readings::capped(
        text::views(x.template_diagnostics@) + text::views(x.units.diagnostics@),
    )
    &&& text::views(s.data_diagnostics@) == readings::capped(text::views(x.schemas.diagnostics@))
}

proof fn lemma_sorted_len(files: Seq<FileEntry>)
    ensures
        sorted_files(files).len() == files.len(),
{
    order::law_stable_order_exists(path_keys(files));
}

fn append_files(out: &mut Vec<FileEntry>, more: Vec<FileEntry>)
    ensures
        final(out)@ == old(out)@ + more@,
{
    let mut more = more;
    out.append(&mut more);
}

fn language_tags(at: &Vec<usize>, ts: usize, py: usize, cs: usize, Ghost(x): Ghost<IndexInputs>) -> (r: Vec<&'static str>)
    requires
        ts == code_files(x).len(),
        py == x.py@.len(),
        cs == x.cs@.len(),
        ts + py + cs <= usize::MAX,
        order::positions(at@) == path_order(files_by_language(x)),
    ensures
        tag_views(r@) == all_tags(x),
{
    let mut tags: Vec<&'static str> = Vec::new();
    let mut i: usize = 0;
    while i < at.len()
        invariant
            i <= at@.len(),
            ts == code_files(x).len(),
            py == x.py@.len(),
            cs == x.cs@.len(),
            ts + py + cs <= usize::MAX,
            order::positions(at@) == path_order(files_by_language(x)),
            tags@.len() == i,
            forall|j: int| 0 <= j < i ==> (#[trigger] tags@[j])@ == language_at(x, at@[j] as int),
        decreases at@.len() - i,
    {
        let p: usize = at[i];
        let tag: &'static str = if p < ts {
            "ts"
        } else if p < ts + py {
            "py"
        } else if p < ts + py + cs {
            "cs"
        } else {
            "rust"
        };
        tags.push(tag);
        i = i + 1;
    }
    assert(tag_views(tags@) =~= all_tags(x));
    tags
}

/// Builds the graph of a repository, plane by plane, and reports how it went.
pub fn assemble_index(
    repo_name: &str,
    inputs: IndexInputs,
    scip: &ScipOutcome,
    mode: ResolveMode,
    files_parsed: usize,
    files_reused: usize,
) -> (r: Indexed)
    requires
        inputs.ts@.len() + inputs.documents@.len() + inputs.py@.len() + inputs.cs@.len() + inputs.rust@.len()
            <= usize::MAX,
    ensures
        ({
            let state = index_state(repo_name@, inputs, answers(*scip));
            &&& r.graph@ == state.data.graph
            &&& describes(r.stats, inputs, state, mode, scip.degraded, files_parsed, files_reused)
        }),
        r.files@ == all_files(inputs),
{
    let ghost x = inputs;
    let ghost state = index_state(repo_name@, x, answers(*scip));
    let mut ts = inputs.ts;
    append_files(&mut ts, inputs.documents);
    proof {
        lemma_sorted_len(x.ts@ + x.documents@);
    }
    let (mut files, _) = sort_files(ts);
    let n_ts: usize = files.len();
    let (mut graph, coverage) = code_plane::assemble_with_coverage(
        &files,
        repo_name,
        scip.resolver.as_ref(),
        &inputs.sources,
    );
    let mut p: usize = 0;
    while p < inputs.planes.len()
        invariant
            p <= inputs.planes@.len(),
            graph@ == with_planes(state.code.0, inputs.planes@, p as nat),
        decreases inputs.planes@.len() - p,
    {
        graph.add_all(&inputs.planes[p].nodes, &inputs.planes[p].edges);
        p = p + 1;
    }
    let n_py: usize = inputs.py.len();
    let n_cs: usize = inputs.cs.len();
    append_files(&mut files, inputs.py);
    append_files(&mut files, inputs.cs);
    append_files(&mut files, inputs.rust);
    assert(files@ =~= files_by_language(x));
    proof {
        lemma_sorted_len(files_by_language(x));
    }
    let (files, at) = sort_files(files);
    let tags = language_tags(&at, n_ts, n_py, n_cs, Ghost(x));
    assert(tags@.len() == tag_views(tags@).len());
    contract::build_contract_plane(&mut graph, repo_name, &files, &inputs.operations, &inputs.signals);
    let mut templates = inputs.cloudformation;
    let mut terraform = inputs.terraform;
    templates.append(&mut terraform);
    let mut infra_link = infra::build_infra_plane(&mut graph, repo_name, &templates, &files);
    let mut infra_diagnostics = inputs.template_diagnostics;
    infra_link.templates_failed = infra_diagnostics.len();
    let units = inputs.units;
    let terragrunt = infra::build_terragrunt_plane(&mut graph, repo_name, &units.units);
    let mut unit_diagnostics = units.diagnostics;
    infra_diagnostics.append(&mut unit_diagnostics);
    assert(text::views(infra_diagnostics@) =~= text::views(x.template_diagnostics@) + text::views(
        x.units.diagnostics@,
    ));
    let infra_diagnostics = readings::cap_diagnostics(infra_diagnostics);
    let schemas = inputs.schemas;
    let sql = collect_code_sql(&files, &tags);
    let orm = collect_code_orm(&files, &tags);
    let mut data_link = data::build_data_plane(&mut graph, repo_name, &schemas.schemas, &sql, &orm);
    data_link.schemas_failed = schemas.diagnostics.len();
    let data_diagnostics = readings::cap_diagnostics(schemas.diagnostics);
    let stats = IndexStats {
        files_indexed: files.len(),
        nodes: graph.node_count(),
        edges: graph.edge_count(),
        files_parsed,
        files_reused,
        resolution_mode: mode,
        degraded: scip.degraded,
        sites_total: coverage.sites_total,
        sites_resolved: coverage.sites_resolved,
        sites_heuristic: coverage.sites_heuristic,
        sites_ambiguous: coverage.sites_ambiguous,
        infra_link,
        terragrunt,
        data_link,
        data_diagnostics,
        infra_diagnostics,
    };
    Indexed { graph, stats, files }
}

/// Whether every edge that the languages add lies in its band.
pub open spec fn planes_banded(planes: Seq<PlaneAddition>) -> bool {
    forall|k: int, i: int|
        0 <= k < planes.len() && 0 <= i < planes[k].edges@.len() ==> model::in_band(
            (#[trigger] planes[k].edges@[i])@.provenance,
            planes[k].edges@[i]@.confidence,
        )
}

proof fn lemma_planes_keep(g: GraphView, planes: Seq<PlaneAddition>, n: nat)
    requires
        n <= planes.len(),
        planes_banded(planes),
    ensures
        model::keeps(g, with_planes(g, planes, n)),
    decreases n,
{
    if n > 0 {
        lemma_planes_keep(g, planes, (n - 1) as nat);
        let h = with_planes(g, planes, (n - 1) as nat);
        let nodes = model::node_views(planes[n - 1].nodes@);
        let edges = model::edge_views(planes[n - 1].edges@);
        assert forall|i: int| 0 <= i < edges.len() implies model::in_band(
            (#[trigger] edges[i]).provenance,
            edges[i].confidence,
        ) by {
            assert(edges[i] == planes[n - 1].edges@[i]@);
        }
        model::lemma_keeps_all(h, nodes, edges);
        model::lemma_keeps_trans(g, h, with_planes(g, planes, n));
    }
}

/// The graph of a repository is sound: no two nodes share an identifier, and every edge, of every
/// plane, lies in the band of its provenance. A plane never takes away what an earlier plane
/// built.
pub proof fn law_index_sound(repo: Seq<char>, x: IndexInputs, scip: Option<Seq<ScipEntry>>)
    requires
        planes_banded(x.planes@),
        contract::signals_gradable(x.signals@),
    ensures
        model::sound(index_state(repo, x, scip).data.graph),
        model::extends(index_state(repo, x, scip).code.0, index_state(repo, x, scip).data.graph),
        model::extends(index_state(repo, x, scip).contract, index_state(repo, x, scip).data.graph),
{
    let s = index_state(repo, x, scip);
    code_plane::law_code_plane_sound(repo, code_files(x), scip, x.sources@);
    lemma_planes_keep(s.code.0, x.planes@, x.planes@.len());
    let p = with_planes(s.code.0, x.planes@, x.planes@.len());
    let files = all_files(x);
    contract::law_contract_plane_sound(p, repo, files, x.operations@, x.signals@);
    infra::law_infra_plane_sound(s.contract, repo, x.cloudformation@ + x.terraform@, files);
    infra::law_terragrunt_plane_sound(s.infra.graph, repo, x.units.units@);
    data::law_data_plane_sound(
        s.terragrunt.0,
        repo,
        x.schemas.schemas@,
        code_sql(files, all_tags(x)),
        code_orm(files, all_tags(x)),
    );
    model::lemma_keeps_trans(s.contract, s.infra.graph, s.terragrunt.0);
    model::lemma_keeps_trans(s.contract, s.terragrunt.0, s.data.graph);
    model::lemma_keeps_trans(s.code.0, p, s.contract);
    model::lemma_keeps_trans(s.code.0, s.contract, s.data.graph);
}

// ----------------------------------------------------------------------------------------------
// Incremental runs
// ----------------------------------------------------------------------------------------------

/// How the files of one kind come to their analyses in a run: what is on disk, what an earlier run
/// kept, and what was made anew.
pub struct Part {
    pub files: Seq<FileHash>,
    pub cache: Seq<ParseCacheEntry>,
    pub fresh: Seq<AnalyzedFile>,
}

/// How the files of a repository come to their analyses in a run.
pub struct Parts {
    pub ts: Part,
    pub documents: Part,
    pub py: Part,
    pub cs: Part,
    pub rust: Part,
}

/// The files of a repository with their analyses.
pub struct RepoFiles {
    pub ts: Seq<FileEntry>,
    pub documents: Seq<FileEntry>,
    pub py: Seq<FileEntry>,
    pub cs: Seq<FileEntry>,
    pub rust: Seq<FileEntry>,
}

impl Part {
    /// The files with their analyses.
    pub open spec fn merged(self) -> Seq<FileEntry> {
        analyses_of(self.files, self.cache, self.fresh)
    }

    /// How many files were parsed.
    pub open spec fn parsed(self) -> nat {
        unparsed(self.files, self.cache).len()
    }

    /// How many files were reused.
    pub open spec fn reused(self) -> int {
        self.files.len() - self.parsed()
    }

    /// Whether every analysis is what `analyze` makes of the path and the hash of its file, and the
    /// files are as many as a machine can hold.
    pub open spec fn honest(self, analyze: spec_fn(Seq<char>, Seq<char>) -> AnalyzedFile) -> bool {
        &&& self.files.len() <= usize::MAX
        &&& faithful(self.cache, analyze)
        &&& made_by(self.files, self.cache, self.fresh, analyze)
    }
}

impl Parts {
    /// The files with their analyses.
    pub open spec fn merged(self) -> RepoFiles {
        RepoFiles {
            ts: self.ts.merged(),
            documents: self.documents.merged(),
            py: self.py.merged(),
            cs: self.cs.merged(),
            rust: self.rust.merged(),
        }
    }

    /// How many files were parsed.
    pub open spec fn parsed(self) -> nat {
        self.ts.parsed() + self.documents.parsed() + self.py.parsed() + self.cs.parsed() + self.rust.parsed()
    }

    /// How many files were reused.
    pub open spec fn reused(self) -> int {
        self.ts.reused() + self.documents.reused() + self.py.reused() + self.cs.reused() + self.rust.reused()
    }

    /// Whether every analysis is what `analyze` makes of the path and the hash of its file.
    pub open spec fn honest(self, analyze: spec_fn(Seq<char>, Seq<char>) -> AnalyzedFile) -> bool {
        &&& self.ts.honest(analyze)
        &&& self.documents.honest(analyze)
        &&& self.py.honest(analyze)
        &&& self.cs.honest(analyze)
        &&& self.rust.honest(analyze)
    }

    /// Whether two runs are over the same files.
    pub open spec fn same_files(self, other: Parts) -> bool {
        &&& self.ts.files == other.ts.files
        &&& self.documents.files == other.documents.files
        &&& self.py.files == other.py.files
        &&& self.cs.files == other.cs.files
        &&& self.rust.files == other.rust.files
    }
}

/// Whether two statistics differ in nothing but how many files were parsed and reused.
pub open spec fn same_but_reuse(s: IndexStats, t: IndexStats) -> bool {
    &&& s.files_indexed == t.files_indexed
    &&& s.nodes == t.nodes
    &&& s.edges == t.edges
    &&& s.resolution_mode == t.resolution_mode
    &&& s.degraded == t.degraded
    &&& s.sites_total == t.sites_total
    &&& s.sites_resolved == t.sites_resolved
    &&& s.sites_heuristic == t.sites_heuristic
    &&& s.sites_ambiguous == t.sites_ambiguous
    &&& s.infra_link == t.infra_link
    &&& s.terragrunt == t.terragrunt
    &&& s.data_link == t.data_link
    &&& text::views(s.infra_diagnostics@) == text::views(t.infra_diagnostics@)
    &&& text::views(s.data_diagnostics@) == text::views(t.data_diagnostics@)
}

proof fn lemma_part_merges(p: Part, q: Part, analyze: spec_fn(Seq<char>, Seq<char>) -> AnalyzedFile)
    requires
        p.files == q.files,
        p.honest(analyze),
        q.honest(analyze),
    ensures
        p.merged() == q.merged(),
{
    assert forall|i: int| 0 <= i < p.files.len() implies #[trigger] p.merged()[i] == q.merged()[i] by {
        law_incremental_equals_full(p.files, p.cache, p.fresh, analyze, i);
        law_incremental_equals_full(q.files, q.cache, q.fresh, analyze, i);
    }
    assert(p.merged() =~= q.merged());
}

/// Two runs over the same files give the same graph, the same files and the same statistics, but for
/// how many files were parsed and reused, whatever each has in its cache: an incremental run is a full
/// run. Analysing a file depends on its path and content alone, and `prepare` is all that is read and
/// computed of the analyzed files before the graph is built.
pub proof fn law_incremental_graph_equals_full(
    repo: Seq<char>,
    p: Parts,
    q: Parts,
    analyze: spec_fn(Seq<char>, Seq<char>) -> AnalyzedFile,
    prepare: spec_fn(RepoFiles) -> IndexInputs,
    scip: Option<Seq<ScipEntry>>,
    mode: ResolveMode,
    degraded: bool,
    s: IndexStats,
    t: IndexStats,
)
    requires
        p.same_files(q),
        p.honest(analyze),
        q.honest(analyze),
        describes(
            s,
            prepare(p.merged()),
            index_state(repo, prepare(p.merged()), scip),
            mode,
            degraded,
            s.files_parsed,
            s.files_reused,
        ),
        describes(
            t,
            prepare(q.merged()),
            index_state(repo, prepare(q.merged()), scip),
            mode,
            degraded,
            t.files_parsed,
            t.files_reused,
        ),
    ensures
        p.merged() == q.merged(),
        index_state(repo, prepare(p.merged()), scip) == index_state(repo, prepare(q.merged()), scip),
        all_files(prepare(p.merged())) == all_files(prepare(q.merged())),
        same_but_reuse(s, t),
{
    lemma_part_merges(p.ts, q.ts, analyze);
    lemma_part_merges(p.documents, q.documents, analyze);
    lemma_part_merges(p.py, q.py, analyze);
    lemma_part_merges(p.cs, q.cs, analyze);
    lemma_part_merges(p.rust, q.rust, analyze);
    let x = InfraLinkCoverage { templates_failed: 0, ..s.infra_link };
    let y = InfraLinkCoverage { templates_failed: 0, ..t.infra_link };
    assert(x == y);
}

/// Every file that is indexed was either parsed or reused.
pub proof fn law_every_file_is_parsed_or_reused(p: Parts)
    ensures
        p.parsed() + p.reused() == p.merged().ts.len() + p.merged().documents.len() + p.merged().py.len()
            + p.merged().cs.len() + p.merged().rust.len(),
        p.reused() >= 0,
{
    lemma_unparsed_len(p.ts.files, p.ts.cache, p.ts.files.len());
    lemma_unparsed_len(p.documents.files, p.documents.cache, p.documents.files.len());
    lemma_unparsed_len(p.py.files, p.py.cache, p.py.files.len());
    lemma_unparsed_len(p.cs.files, p.cs.cache, p.cs.files.len());
    lemma_unparsed_len(p.rust.files, p.rust.cache, p.rust.files.len());
}

// ----------------------------------------------------------------------------------------------
// Context
// ----------------------------------------------------------------------------------------------

/// Where the graph of a repository lives.
#[derive(Debug, PartialEq, Eq)]
pub enum IndexContext {
    /// In the store of the repository.
    Single { db: String },
    /// In an estate, under a name of the manifest.
    Estate { manifest: String, repo: String, repo_root: String },
}

/// What is found on disk about a repository and its estate.
#[derive(Debug, PartialEq, Eq)]
pub struct ContextFacts {
    /// The store of the repository.
    pub db: String,
    /// The root of the repository, where it can be resolved.
    pub resolved_root: Option<String>,
    pub marker: Option<EstateMarker>,
    /// The manifest that the marker names, where it can be read and is valid.
    pub manifest: Option<WorkspaceManifest>,
    /// Whether the path of the manifest has a directory.
    pub manifest_has_dir: bool,
    /// The resolved path of each repository of the manifest, where it can be resolved.
    pub member_roots: Vec<Option<String>>,
}

/// Whether a manifest lists a repository of this name at this root.
pub open spec fn lists_member(m: WorkspaceManifest, roots: Seq<Option<String>>, name: Seq<char>, root: Seq<char>) -> bool {
    exists|i: int|
        0 <= i < m.repos@.len() && (#[trigger] m.repos@[i]).name@ == name && text::opt_view(roots[i]) == Some(root)
}

/// Whether a repository belongs to an estate: its root can be resolved, and its marker names a
/// manifest that can be read and still lists it, under the same name and at the same root.
pub open spec fn in_estate(f: ContextFacts) -> bool {
    match (f.marker, f.manifest, f.resolved_root) {
        (Some(marker), Some(m), Some(root)) => f.manifest_has_dir && lists_member(
            m,
            f.member_roots@,
            marker.repo@,
            root@,
        ),
        _ => false,
    }
}

fn is_listed(m: &WorkspaceManifest, roots: &Vec<Option<String>>, name: &str, root: &str) -> (r: bool)
    requires
        roots@.len() == m.repos@.len(),
    ensures
        r == lists_member(*m, roots@, name@, root@),
{
    let mut i: usize = 0;
    while i < m.repos.len()
        invariant
            i <= m.repos@.len(),
            roots@.len() == m.repos@.len(),
            forall|j: int|
                0 <= j < i ==> !((#[trigger] m.repos@[j]).name@ == name@ && text::opt_view(roots@[j]) == Some(root@)),
        decreases m.repos@.len() - i,
    {
        let at_root = match &roots[i] {
            Some(member) => text::same(member.as_str(), root),
            None => false,
        };
        if at_root && text::same(m.repos[i].name.as_str(), name) {
            return true;
        }
        i = i + 1;
    }
    false
}

/// Where the graph of a repository lives. Whatever is missing, cannot be resolved or is out of date
/// leaves the repository on its own.
pub fn resolve_context(facts: ContextFacts) -> (r: IndexContext)
    requires
        facts.manifest matches Some(m) ==> facts.member_roots@.len() == m.repos@.len(),
    ensures
        if in_estate(facts) {
            r == (IndexContext::Estate {
                manifest: facts.marker->Some_0.manifest,
                repo: facts.marker->Some_0.repo,
                repo_root: facts.resolved_root->Some_0,
            })
        } else {
            r == (IndexContext::Single { db: facts.db })
        },
{
    let listed = match (&facts.marker, &facts.manifest, &facts.resolved_root) {
        (Some(marker), Some(m), Some(root)) => facts.manifest_has_dir && is_listed(
            m,
            &facts.member_roots,
            marker.repo.as_str(),
            root.as_str(),
        ),
        _ => false,
    };
    match (facts.marker, facts.resolved_root) {
        (Some(marker), Some(repo_root)) => if listed {
            IndexContext::Estate { manifest: marker.manifest, repo: marker.repo, repo_root }
        } else {
            IndexContext::Single { db: facts.db }
        },
        _ => IndexContext::Single { db: facts.db },
    }
}

} // verus!
