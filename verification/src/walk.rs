//! Which files of a repository are read, and under which keys.
//!
//! Each set of sources has its extensions, the directories that are never entered for it, and
//! whether the exclude list of the project applies. The metadata directory of an installed package
//! is never entered, and a file that such a directory lists as installed is never read: these are
//! not the code of the repository.
use vstd::prelude::*;

use crate::text;

verus! {

/// A set of sources that is read together.
#[derive(Clone, Copy, Debug, PartialEq, Eq, Structural)]
pub enum SourceSet {
    TypeScript,
    Python,
    CSharp,
    Rust,
    /// GraphQL documents and schemas.
    Graphql,
    /// What may be an OpenAPI specification.
    OpenApi,
    Proto,
    /// What may be a template of infrastructure.
    Templates,
    Terraform,
    /// What may be a Terragrunt unit.
    Hcl,
    Sql,
}

/// The extensions of a set.
pub open spec fn extensions_of(set: SourceSet) -> Seq<Seq<char>> {
    match set {
        SourceSet::TypeScript => seq!["ts"@, "tsx"@, "js"@, "jsx"@, "mjs"@, "cjs"@],
        SourceSet::Python => seq!["py"@, "pyi"@],
        SourceSet::CSharp => seq!["cs"@, "csx"@],
        SourceSet::Rust => seq!["rs"@],
        SourceSet::Graphql => seq!["graphql"@, "gql"@],
        SourceSet::OpenApi => seq!["json"@, "yaml"@, "yml"@],
        SourceSet::Proto => seq!["proto"@],
        SourceSet::Templates => seq!["yaml"@, "yml"@, "json"@, "template"@],
        SourceSet::Terraform => seq!["tf"@, "tofu"@],
        SourceSet::Hcl => seq!["hcl"@],
        SourceSet::Sql => seq!["sql"@],
    }
}

/// The directories that are never entered for a set.
pub open spec fn skipped_dirs(set: SourceSet) -> Seq<Seq<char>> {
    match set {
        SourceSet::Python => seq!["__pycache__"@, "venv"@, ".venv"@, "site-packages"@, "node_modules"@],
        SourceSet::CSharp => seq!["bin"@, "obj"@, "packages"@, ".vs"@],
        SourceSet::Rust => seq!["target"@],
        SourceSet::Terraform | SourceSet::Hcl => seq![".terraform"@],
        SourceSet::Sql => seq![
            "node_modules"@,
            "__pycache__"@,
            "venv"@,
            ".venv"@,
            "site-packages"@,
            ".terraform"@,
            "bin"@,
            "obj"@,
            "target"@,
        ],
        _ => Seq::empty(),
    }
}

/// Whether the exclude list of the project applies to a set. It does not to what is read to find
/// contracts and templates.
pub open spec fn honours_exclude_list(set: SourceSet) -> bool {
    match set {
        SourceSet::Graphql | SourceSet::OpenApi | SourceSet::Proto | SourceSet::Templates => false,
        _ => true,
    }
}

/// Whether the exclude list of the project applies to a set.
pub fn uses_exclude_list(set: SourceSet) -> (r: bool)
    ensures
        r == honours_exclude_list(set),
{
    match set {
        SourceSet::Graphql | SourceSet::OpenApi | SourceSet::Proto | SourceSet::Templates => false,
        _ => true,
    }
}

fn one_of(x: &str, list: &Vec<&'static str>) -> (r: bool)
    ensures
        r == exists|i: int| 0 <= i < list@.len() && (#[trigger] list@[i])@ == x@,
{
    let mut i: usize = 0;
    while i < list.len()
        invariant
            i <= list@.len(),
            forall|j: int| 0 <= j < i ==> (#[trigger] list@[j])@ != x@,
        decreases list@.len() - i,
    {
        if text::same(list[i], x) {
            return true;
        }
        i = i + 1;
    }
    false
}

/// The texts of a list of literals.
pub open spec fn literal_views(v: Seq<&'static str>) -> Seq<Seq<char>> {
    Seq::new(v.len(), |i: int| v[i]@)
}

proof fn lemma_literal_contains(v: Seq<&'static str>, x: Seq<char>)
    ensures
        literal_views(v).contains(x) == exists|i: int| 0 <= i < v.len() && (#[trigger] v[i])@ == x,
{
    let w = literal_views(v);
    if w.contains(x) {
        let i = choose|i: int| 0 <= i < w.len() && w[i] == x;
        assert(v[i]@ == x);
    }
    if exists|i: int| 0 <= i < v.len() && (#[trigger] v[i])@ == x {
        let i = choose|i: int| 0 <= i < v.len() && (#[trigger] v[i])@ == x;
        assert(w[i] == x);
    }
}

/// The extensions of a set.
pub fn extensions(set: SourceSet) -> (r: Vec<&'static str>)
    ensures
        literal_views(r@) == extensions_of(set),
{
    let v: Vec<&'static str> = match set {
        SourceSet::TypeScript => vec!["ts", "tsx", "js", "jsx", "mjs", "cjs"],
        SourceSet::Python => vec!["py", "pyi"],
        SourceSet::CSharp => vec!["cs", "csx"],
        SourceSet::Rust => vec!["rs"],
        SourceSet::Graphql => vec!["graphql", "gql"],
        SourceSet::OpenApi => vec!["json", "yaml", "yml"],
        SourceSet::Proto => vec!["proto"],
        SourceSet::Templates => vec!["yaml", "yml", "json", "template"],
        SourceSet::Terraform => vec!["tf", "tofu"],
        SourceSet::Hcl => vec!["hcl"],
        SourceSet::Sql => vec!["sql"],
    };
    assert(literal_views(v@) =~= extensions_of(set));
    v
}

/// The directories that are never entered for a set.
pub fn skip_dirs(set: SourceSet) -> (r: Vec<&'static str>)
    ensures
        literal_views(r@) == skipped_dirs(set),
{
    let v: Vec<&'static str> = match set {
        SourceSet::Python => vec!["__pycache__", "venv", ".venv", "site-packages", "node_modules"],
        SourceSet::CSharp => vec!["bin", "obj", "packages", ".vs"],
        SourceSet::Rust => vec!["target"],
        SourceSet::Terraform | SourceSet::Hcl => vec![".terraform"],
        SourceSet::Sql => vec![
            "node_modules",
            "__pycache__",
            "venv",
            ".venv",
            "site-packages",
            ".terraform",
            "bin",
            "obj",
            "target",
        ],
        _ => Vec::new(),
    };
    assert(literal_views(v@) =~= skipped_dirs(set));
    v
}

// ----------------------------------------------------------------------------------------------
// Entries
// ----------------------------------------------------------------------------------------------

/// An entry of a directory: its name, where that is text, and whether it is a directory.
#[derive(Debug, PartialEq, Eq)]
pub struct DirItem {
    pub name: Option<String>,
    pub is_dir: bool,
}

/// Whether an entry is the metadata directory of an installed package.
pub open spec fn is_dist_info(item: DirItem) -> bool {
    item.is_dir && (item.name matches Some(n) && text::ends(n@, ".dist-info"@))
}

/// Whether an entry is the metadata directory of an installed package.
pub fn is_dist_info_dir(item: &DirItem) -> (r: bool)
    ensures
        r == is_dist_info(*item),
{
    match &item.name {
        Some(n) => item.is_dir && text::ends_with(n.as_str(), ".dist-info"),
        None => false,
    }
}

/// Whether an entry is walked for a set of sources.
pub open spec fn walked(set: SourceSet, item: DirItem, installed: bool) -> bool {
    !is_dist_info(item) && !installed && !(item.is_dir && (item.name matches Some(n) && skipped_dirs(set).contains(n@)))
}

/// Whether an entry is walked for a set of sources. `installed` says that a package lists it as
/// installed.
pub fn keep_entry(set: SourceSet, item: &DirItem, installed: bool) -> (r: bool)
    ensures
        r == walked(set, *item, installed),
{
    if is_dist_info_dir(item) || installed {
        return false;
    }
    if item.is_dir {
        match &item.name {
            Some(n) => {
                let dirs = skip_dirs(set);
                proof {
                    lemma_literal_contains(dirs@, n@);
                }
                return !one_of(n.as_str(), &dirs);
            },
            None => {},
        }
    }
    true
}

/// Whether an entry is walked in looking for installed packages: every directory but that of `git`
/// and those that are never entered for code.
pub open spec fn scanned(item: DirItem) -> bool {
    !(item.is_dir && (item.name matches Some(n) && (n@ == ".git"@ || skipped_dirs(SourceSet::Python).contains(n@)
        || skipped_dirs(SourceSet::CSharp).contains(n@) || skipped_dirs(SourceSet::Rust).contains(n@))))
}

/// Whether an entry is walked in looking for installed packages.
pub fn scan_entry(item: &DirItem) -> (r: bool)
    ensures
        r == scanned(*item),
{
    if !item.is_dir {
        return true;
    }
    match &item.name {
        Some(n) => {
            let py = skip_dirs(SourceSet::Python);
            let cs = skip_dirs(SourceSet::CSharp);
            let rs = skip_dirs(SourceSet::Rust);
            proof {
                lemma_literal_contains(py@, n@);
                lemma_literal_contains(cs@, n@);
                lemma_literal_contains(rs@, n@);
            }
            !text::same(n.as_str(), ".git") && !one_of(n.as_str(), &py) && !one_of(n.as_str(), &cs) && !one_of(
                n.as_str(),
                &rs,
            )
        },
        None => true,
    }
}

/// A file that no package lists as installed is walked for every set, whatever its name, and a
/// directory that shares its name with an installed one is entered: no code of the repository is
/// lost to a bundle beside it.
pub proof fn law_own_files_survive(set: SourceSet, item: DirItem)
    requires
        !item.is_dir,
    ensures
        walked(set, item, false),
        !walked(set, item, true),
{
}

// ----------------------------------------------------------------------------------------------
// Extensions and keys
// ----------------------------------------------------------------------------------------------

/// What follows the last dot of a file name: none where there is no dot but at the start.
pub open spec fn file_extension(name: Seq<char>) -> Option<Seq<char>> {
    match text::last_position(name, '.') {
        Some(i) => if i == 0 || name == ".."@ {
            None
        } else {
            Some(name.skip(i + 1))
        },
        None => None,
    }
}

/// Whether the extension of a file is one of a set.
pub open spec fn has_extension(name: Seq<char>, set: SourceSet) -> bool {
    file_extension(name) matches Some(ext) && extensions_of(set).contains(ext)
}

/// Whether the extension of a file is one of a set.
pub fn has_supported_extension(name: &str, set: SourceSet) -> (r: bool)
    ensures
        r == has_extension(name@, set),
{
    let v = text::chars_of(name);
    match text::rfind(&v, '.') {
        Some(i) => {
            if i == 0 || text::same(name, "..") {
                return false;
            }
            let n: usize = v.len();
            let ext = text::slice_text(&v, i + 1, n);
            assert(ext@ =~= name@.skip(i + 1));
            let all = extensions(set);
            proof {
                lemma_literal_contains(all@, ext@);
            }
            one_of(ext.as_str(), &all)
        },
        None => false,
    }
}

/// The key of a file: the parts of its path below the repository, with slashes between.
pub open spec fn key_of(parts: Seq<Seq<char>>) -> Option<Seq<char>> {
    let key = text::joined(parts, "/"@);
    if key.len() == 0 {
        None
    } else {
        Some(key)
    }
}

/// The key of a file, from the parts of its path below the repository.
pub fn relative_key(parts: &Vec<String>) -> (r: Option<String>)
    ensures
        text::opt_view(r) == key_of(text::views(parts@)),
{
    let key = text::join(parts, "/");
    if key.as_str().unicode_len() == 0 {
        None
    } else {
        Some(key)
    }
}

/// The name of a repository: the last part of its path, where there is one.
pub fn repo_name_of(base: Option<String>) -> (r: String)
    ensures
        r@ == (match base {
            Some(name) => name@,
            None => "repo"@,
        }),
{
    match base {
        Some(name) => name,
        None => "repo".to_owned(),
    }
}

// ----------------------------------------------------------------------------------------------
// Installed files
// ----------------------------------------------------------------------------------------------

/// The file that a line of a record names: its first field, unless that is empty or outside of the
/// directory.
pub open spec fn recorded(line: Seq<char>) -> Option<Seq<char>> {
    let path = text::trimmed(text::split_on(line, ',')[0]);
    if path.len() == 0 || text::begins(path, "/"@) || text::begins(path, ".."@) {
        None
    } else {
        Some(path)
    }
}

/// The files that the first `n` lines of a record name.
pub open spec fn recorded_upto(lines: Seq<Seq<char>>, n: nat) -> Seq<Seq<char>>
    decreases n,
{
    if n == 0 {
        Seq::empty()
    } else {
        let rest = recorded_upto(lines, (n - 1) as nat);
        match recorded(lines[n - 1]) {
            Some(path) => rest.push(path),
            None => rest,
        }
    }
}

/// The files that the record of an installed package names.
pub fn recorded_files(record: &str) -> (r: Vec<String>)
    ensures
        text::views(r@) == recorded_upto(text::lines(record@), text::lines(record@).len()),
{
    let lines = text::lines_of(record);
    let ghost lv = text::lines(record@);
    let mut out: Vec<String> = Vec::new();
    assert(text::views(out@) =~= Seq::<Seq<char>>::empty());
    let mut i: usize = 0;
    while i < lines.len()
        invariant
            i <= lines@.len(),
            lv == text::views(lines@),
            text::views(out@) == recorded_upto(lv, i as nat),
        decreases lines@.len() - i,
    {
        assert(lv[i as int] == lines@[i as int]@);
        let fields = text::split_char(lines[i].as_str(), ',');
        assert(text::views(fields@)[0] == fields@[0]@);
        let path = text::trim(fields[0].as_str());
        if !(path.as_str().unicode_len() == 0 || text::starts_with(path.as_str(), "/") || text::starts_with(
            path.as_str(),
            "..",
        )) {
            let ghost before = text::views(out@);
            let ghost pv = path@;
            out.push(path);
            assert(text::views(out@) =~= before.push(pv));
        }
        i = i + 1;
    }
    out
}

/// What a record names lies below the directory of the package.
pub proof fn law_recorded_below(lines: Seq<Seq<char>>, n: nat)
    requires
        n <= lines.len(),
    ensures
        forall|i: int|
            0 <= i < recorded_upto(lines, n).len() ==> (#[trigger] recorded_upto(lines, n)[i]).len() > 0
                && !text::begins(recorded_upto(lines, n)[i], "/"@) && !text::begins(
                recorded_upto(lines, n)[i],
                ".."@,
            ),
    decreases n,
{
    if n > 0 {
        law_recorded_below(lines, (n - 1) as nat);
        let rest = recorded_upto(lines, (n - 1) as nat);
        match recorded(lines[n - 1]) {
            Some(path) => {
                assert forall|i: int| 0 <= i < rest.push(path).len() implies (#[trigger] rest.push(path)[i]).len() > 0
                    && !text::begins(rest.push(path)[i], "/"@) && !text::begins(rest.push(path)[i], ".."@) by {
                    if i < rest.len() {
                        assert(rest.push(path)[i] == rest[i]);
                    }
                }
            },
            None => {},
        }
    }
}

} // verus!
