//! Which files are looked at, and what is read of a project's settings, told by the names.
use vstd::prelude::*;

use crate::json;
use crate::json::JsonView;
use crate::module_fs;
use crate::order;
use crate::text;
use crate::tsconfig;
use crate::walk;
use crate::walk::{DirItem, SourceSet};

verus! {

// ----------------------------------------------------------------------------------------------
// Extensions
// ----------------------------------------------------------------------------------------------

/// Whether an extension is one of a set.
pub open spec fn is_extension(ext: Seq<char>, set: SourceSet) -> bool {
    match set {
        SourceSet::TypeScript => ext == "ts"@ || ext == "tsx"@ || ext == "js"@ || ext == "jsx"@ || ext == "mjs"@ || ext
            == "cjs"@,
        SourceSet::Python => ext == "py"@ || ext == "pyi"@,
        SourceSet::CSharp => ext == "cs"@ || ext == "csx"@,
        SourceSet::Rust => ext == "rs"@,
        SourceSet::Graphql => ext == "graphql"@ || ext == "gql"@,
        SourceSet::OpenApi => ext == "json"@ || ext == "yaml"@ || ext == "yml"@,
        SourceSet::Proto => ext == "proto"@,
        SourceSet::Templates => ext == "yaml"@ || ext == "yml"@ || ext == "json"@ || ext == "template"@,
        SourceSet::Terraform => ext == "tf"@ || ext == "tofu"@,
        SourceSet::Hcl => ext == "hcl"@,
        SourceSet::Sql => ext == "sql"@,
    }
}

/// Whether a name is a stem, a dot and an extension.
pub open spec fn is_named(name: Seq<char>, stem: Seq<char>, ext: Seq<char>) -> bool {
    stem.len() > 0 && !ext.contains('.') && name == stem.push('.') + ext
}

proof fn lemma_extensions(ext: Seq<char>, set: SourceSet)
    ensures
        walk::extensions_of(set).contains(ext) == is_extension(ext, set),
{
    let all = walk::extensions_of(set);
    if all.contains(ext) {
        let i = choose|i: int| 0 <= i < all.len() && all[i] == ext;
        assert(is_extension(all[i], set));
    }
    if is_extension(ext, set) {
        match set {
            SourceSet::TypeScript => {
                assert(all[0] == ext || all[1] == ext || all[2] == ext || all[3] == ext || all[4] == ext || all[5] == ext);
            },
            SourceSet::Python | SourceSet::CSharp | SourceSet::Graphql | SourceSet::Terraform => {
                assert(all[0] == ext || all[1] == ext);
            },
            SourceSet::OpenApi => {
                assert(all[0] == ext || all[1] == ext || all[2] == ext);
            },
            SourceSet::Templates => {
                assert(all[0] == ext || all[1] == ext || all[2] == ext || all[3] == ext);
            },
            _ => {
                assert(all[0] == ext);
            },
        }
    }
}

/// A file is of a set by what follows the last dot of its name, where something stands before that dot.
pub proof fn law_supported_extension(name: Seq<char>, set: SourceSet)
    ensures
        walk::has_extension(name, set) <==> name != ".."@ && exists|stem: Seq<char>, ext: Seq<char>| #[trigger]
            is_named(name, stem, ext) && is_extension(ext, set),
{
    text::lemma_last_position(name, '.');
    if walk::has_extension(name, set) {
        let i = text::last_position(name, '.')->0;
        let stem = name.take(i);
        let ext = name.skip(i + 1);
        lemma_extensions(ext, set);
        assert(name =~= stem.push('.') + ext);
        assert(!ext.contains('.')) by {
            if ext.contains('.') {
                let k = choose|k: int| 0 <= k < ext.len() && ext[k] == '.';
                assert(name[i + 1 + k] == '.');
            }
        }
        assert(is_named(name, stem, ext));
    }
    if name != ".."@ && exists|stem: Seq<char>, ext: Seq<char>| #[trigger]
        is_named(name, stem, ext) && is_extension(ext, set) {
        let (stem, ext) = choose|stem: Seq<char>, ext: Seq<char>| #[trigger]
            is_named(name, stem, ext) && is_extension(ext, set);
        lemma_extensions(ext, set);
        assert(name[stem.len() as int] == '.');
        assert(name.contains('.'));
        assert forall|k: int| stem.len() < k < name.len() implies name[k] != '.' by {
            assert(name[k] == ext[k - stem.len() - 1]);
            assert(ext.contains(ext[k - stem.len() - 1]));
        }
        let i = text::last_position(name, '.')->0;
        assert(i == stem.len());
        assert(name.skip(i + 1) =~= ext);
    }
}

// ----------------------------------------------------------------------------------------------
// Directories
// ----------------------------------------------------------------------------------------------

/// Whether a directory of this name is never entered for a set.
pub open spec fn is_skipped(name: Seq<char>, set: SourceSet) -> bool {
    let python = name == "__pycache__"@ || name == "venv"@ || name == ".venv"@ || name == "site-packages"@ || name
        == "node_modules"@;
    match set {
        SourceSet::Python => python,
        SourceSet::CSharp => name == "bin"@ || name == "obj"@ || name == "packages"@ || name == ".vs"@,
        SourceSet::Rust => name == "target"@,
        SourceSet::Terraform => name == ".terraform"@,
        SourceSet::Hcl => name == ".terraform"@,
        SourceSet::Sql => python || name == ".terraform"@ || name == "bin"@ || name == "obj"@ || name == "target"@,
        _ => false,
    }
}

proof fn lemma_skipped(name: Seq<char>, set: SourceSet)
    ensures
        walk::skipped_dirs(set).contains(name) == is_skipped(name, set),
{
    let all = walk::skipped_dirs(set);
    if all.contains(name) {
        let i = choose|i: int| 0 <= i < all.len() && all[i] == name;
        assert(is_skipped(all[i], set));
    }
    if is_skipped(name, set) {
        match set {
            SourceSet::Python => {
                assert(all[0] == name || all[1] == name || all[2] == name || all[3] == name || all[4] == name);
            },
            SourceSet::CSharp => {
                assert(all[0] == name || all[1] == name || all[2] == name || all[3] == name);
            },
            SourceSet::Sql => {
                assert(all[0] == name || all[1] == name || all[2] == name || all[3] == name || all[4] == name || all[5]
                    == name || all[6] == name || all[7] == name || all[8] == name);
            },
            _ => {
                assert(all[0] == name);
            },
        }
    }
}

/// An entry is walked unless a package installed it, it is the metadata of one, or it is a directory
/// that is never entered for the set.
pub proof fn law_walked(set: SourceSet, item: DirItem, installed: bool)
    ensures
        !item.is_dir || item.name is None ==> walk::walked(set, item, installed) == !installed,
        item.is_dir ==> (item.name matches Some(n) ==> walk::walked(set, item, installed) == (!installed && !is_skipped(
            n@,
            set,
        ) && !exists|head: Seq<char>| n@ == #[trigger] (head + ".dist-info"@))),
{
    if let Some(n) = item.name {
        lemma_skipped(n@, set);
        let tail = ".dist-info"@;
        if text::ends(n@, tail) {
            assert(n@ =~= n@.take(n@.len() - tail.len()) + tail);
        }
        if exists|head: Seq<char>| n@ == #[trigger] (head + tail) {
            let head = choose|head: Seq<char>| n@ == #[trigger] (head + tail);
            assert(n@.subrange(head.len() as int, n@.len() as int) =~= tail);
            assert(text::ends(n@, tail));
        }
    }
}

/// In looking for installed packages every entry is walked but the directory of `git` and those that are
/// never entered for Python, C# or Rust.
pub proof fn law_scanned(item: DirItem)
    ensures
        !item.is_dir || item.name is None ==> walk::scanned(item),
        item.is_dir ==> (item.name matches Some(n) ==> walk::scanned(item) == (n@ != ".git"@ && !is_skipped(
            n@,
            SourceSet::Python,
        ) && !is_skipped(n@, SourceSet::CSharp) && !is_skipped(n@, SourceSet::Rust))),
{
    if let Some(n) = item.name {
        lemma_skipped(n@, SourceSet::Python);
        lemma_skipped(n@, SourceSet::CSharp);
        lemma_skipped(n@, SourceSet::Rust);
    }
}

// ----------------------------------------------------------------------------------------------
// Installed files
// ----------------------------------------------------------------------------------------------

/// The first field of a line.
pub open spec fn first_field(line: Seq<char>) -> Seq<char> {
    text::split_on(line, ',')[0]
}

/// What stands before the first comma of a line is its first field; a line without one is the field.
pub proof fn law_first_field(a: Seq<char>, b: Seq<char>)
    requires
        !a.contains(','),
    ensures
        first_field(a) == a,
        first_field(a.push(',') + b) == a,
    decreases b.len(),
{
    let s = a.push(',') + b;
    text::lemma_split_whole(a, ',');
    if b.len() == 0 {
        assert(s.drop_last() =~= a);
    } else {
        law_first_field(a, b.drop_last());
        assert(s.drop_last() =~= a.push(',') + b.drop_last());
        text::lemma_split_nonempty(a, ',');
        lemma_two_pieces(a, b.drop_last());
    }
}

proof fn lemma_two_pieces(a: Seq<char>, b: Seq<char>)
    ensures
        text::split_on(a.push(',') + b, ',').len() >= 2,
    decreases b.len(),
{
    let s = a.push(',') + b;
    text::lemma_split_nonempty(a, ',');
    if b.len() == 0 {
        assert(s.drop_last() =~= a);
    } else {
        lemma_two_pieces(a, b.drop_last());
        assert(s.drop_last() =~= a.push(',') + b.drop_last());
    }
}

/// Whether a line of a record names a file below the directory of the package.
pub open spec fn names_file(line: Seq<char>) -> bool {
    let path = text::trimmed(first_field(line));
    path.len() > 0 && path[0] != '/' && !(path.len() > 1 && path[0] == '.' && path[1] == '.')
}

/// The files of a record are those that its lines name, in their order.
pub proof fn law_recorded(lines: Seq<Seq<char>>, n: nat)
    requires
        n <= lines.len(),
    ensures
        order::picks(
            walk::recorded_upto(lines, n),
            n,
            |i: int| names_file(lines[i]),
            |i: int| text::trimmed(first_field(lines[i])),
        ),
    decreases n,
{
    let hit = |i: int| names_file(lines[i]);
    let item = |i: int| text::trimmed(first_field(lines[i]));
    if n > 0 {
        let m = (n - 1) as nat;
        law_recorded(lines, m);
        let path = text::trimmed(first_field(lines[m as int]));
        reveal_strlit("/");
        reveal_strlit("..");
        if path.len() > 0 {
            assert(text::begins(path, "/"@) == (path[0] == '/')) by {
                if text::begins(path, "/"@) {
                    assert(path.subrange(0, 1)[0] == "/"@[0]);
                }
                if path[0] == '/' {
                    assert(path.subrange(0, 1) =~= "/"@);
                }
            }
            assert(text::begins(path, ".."@) == (path.len() > 1 && path[0] == '.' && path[1] == '.')) by {
                if text::begins(path, ".."@) {
                    assert(path.subrange(0, 2)[0] == ".."@[0]);
                    assert(path.subrange(0, 2)[1] == ".."@[1]);
                }
                if path.len() > 1 && path[0] == '.' && path[1] == '.' {
                    assert(path.subrange(0, 2) =~= ".."@);
                }
            }
        }
        order::lemma_picks_next(walk::recorded_upto(lines, m), walk::recorded_upto(lines, n), m, hit, item);
    } else {
        order::lemma_picks_none(hit, item);
    }
}

// ----------------------------------------------------------------------------------------------
// Paths below a directory
// ----------------------------------------------------------------------------------------------

/// Whether a part of a path leads a step down.
pub open spec fn leads_down(part: Seq<char>) -> bool {
    part.len() > 0 && part != "."@ && part != ".."@
}

proof fn lemma_depth(parts: Seq<Seq<char>>, n: nat)
    requires
        n <= parts.len(),
    ensures
        module_fs::depth(parts, n) == order::counted(|i: int| leads_down(parts[i]), n) - order::counted(
            |i: int| parts[i] == ".."@,
            n,
        ),
    decreases n,
{
    if n > 0 {
        reveal_strlit("..");
        reveal_strlit(".");
        lemma_depth(parts, (n - 1) as nat);
    }
}

/// Whether more of the first `k` parts of a path lead up than down.
pub open spec fn rises(parts: Seq<Seq<char>>, k: nat) -> bool {
    order::counted(|i: int| parts[i] == ".."@, k) > order::counted(|i: int| leads_down(parts[i]), k)
}

/// A path leads out of a directory exactly where up to some part of it more steps lead up than down; the
/// steps of any other path are its parts but for the empty ones and the dots.
pub proof fn law_located(parts: Seq<Seq<char>>, n: nat)
    requires
        n <= parts.len(),
    ensures
        module_fs::leaves_root(parts, n) <==> exists|k: nat| k <= n && #[trigger] rises(parts, k),
        order::picks(
            module_fs::steps(parts, n),
            n,
            |i: int| leads_down(parts[i]) || parts[i] == ".."@,
            |i: int| parts[i],
        ),
    decreases n,
{
    let hit = |i: int| leads_down(parts[i]) || parts[i] == ".."@;
    let item = |i: int| parts[i];
    lemma_depth(parts, n);
    assert(rises(parts, n) == (module_fs::depth(parts, n) < 0));
    if n > 0 {
        let m = (n - 1) as nat;
        reveal_strlit("..");
        reveal_strlit(".");
        law_located(parts, m);
        order::lemma_picks_next(module_fs::steps(parts, m), module_fs::steps(parts, n), m, hit, item);
        if exists|k: nat| k <= n && #[trigger] rises(parts, k) {
            let k = choose|k: nat| k <= n && #[trigger] rises(parts, k);
            if k < n {
                assert(k <= m);
            }
        }
        if module_fs::leaves_root(parts, m) {
            let k = choose|k: nat| k <= m && #[trigger] rises(parts, k);
            assert(rises(parts, k));
        }
    } else {
        order::lemma_picks_none(hit, item);
    }
}

// ----------------------------------------------------------------------------------------------
// Settings
// ----------------------------------------------------------------------------------------------

/// Whether a value is the first member of an object with a name.
pub open spec fn is_member(j: JsonView, name: Seq<char>, v: JsonView) -> bool {
    j matches JsonView::Object(ms) && exists|i: int|
        0 <= i < ms.len() && (#[trigger] ms[i]).0 == name && ms[i].1 == v && forall|k: int|
            0 <= k < i ==> (#[trigger] ms[k]).0 != name
}

proof fn lemma_member_from(ms: Seq<(Seq<char>, JsonView)>, name: Seq<char>, from: int)
    requires
        0 <= from,
        forall|k: int| 0 <= k < from && k < ms.len() ==> (#[trigger] ms[k]).0 != name,
    ensures
        match json::member_from(ms, name, from) {
            Some(v) => exists|i: int|
                0 <= i < ms.len() && (#[trigger] ms[i]).0 == name && ms[i].1 == v && forall|k: int|
                    0 <= k < i ==> (#[trigger] ms[k]).0 != name,
            None => forall|i: int| 0 <= i < ms.len() ==> (#[trigger] ms[i]).0 != name,
        },
    decreases ms.len() - from,
{
    if from < ms.len() && ms[from].0 != name {
        lemma_member_from(ms, name, from + 1);
    }
}

/// The member of an object with a name is the first that has it.
pub proof fn law_member(j: JsonView, name: Seq<char>, v: JsonView)
    ensures
        json::member(j, name) == Some(v) <==> is_member(j, name, v),
{
    if let JsonView::Object(ms) = j {
        lemma_member_from(ms, name, 0);
        if is_member(j, name, v) {
            let i = choose|i: int|
                0 <= i < ms.len() && (#[trigger] ms[i]).0 == name && ms[i].1 == v && forall|k: int|
                    0 <= k < i ==> (#[trigger] ms[k]).0 != name;
            let w = json::member_from(ms, name, 0)->0;
            let p = choose|p: int|
                0 <= p < ms.len() && (#[trigger] ms[p]).0 == name && ms[p].1 == w && forall|k: int|
                    0 <= k < p ==> (#[trigger] ms[k]).0 != name;
            if i < p {
                assert(ms[i].0 != name);
            }
            if p < i {
                assert(ms[p].0 != name);
            }
        }
    }
}

proof fn lemma_texts(items: Seq<JsonView>, n: nat)
    requires
        n <= items.len(),
    ensures
        order::picks(tsconfig::texts_of(items, n), n, |i: int| items[i] is Text, |i: int| items[i]->Text_0),
    decreases n,
{
    let hit = |i: int| items[i] is Text;
    let item = |i: int| items[i]->Text_0;
    if n > 0 {
        let m = (n - 1) as nat;
        lemma_texts(items, m);
        order::lemma_picks_next(tsconfig::texts_of(items, m), tsconfig::texts_of(items, n), m, hit, item);
    } else {
        order::lemma_picks_none(hit, item);
    }
}

/// The settings of a project: its base is the text under `compilerOptions.baseUrl`; its patterns are the
/// members of `compilerOptions.paths`, in their order, each with the texts of its array.
pub proof fn law_options(root: JsonView)
    ensures
        forall|s: Seq<char>|
            tsconfig::options_of(root).base_url == Some(s) <==> exists|c: JsonView| #[trigger]
                is_member(root, "compilerOptions"@, c) && is_member(c, "baseUrl"@, JsonView::Text(s)),
        forall|c: JsonView, ms: Seq<(Seq<char>, JsonView)>| #[trigger]
            is_member(root, "compilerOptions"@, c) && #[trigger] is_member(c, "paths"@, JsonView::Object(ms)) ==> {
                &&& tsconfig::options_of(root).paths.len() == ms.len()
                &&& forall|i: int|
                    0 <= i < ms.len() ==> (#[trigger] tsconfig::options_of(root).paths[i]).0 == ms[i].0
                &&& forall|i: int|
                    0 <= i < ms.len() ==> (ms[i].1 matches JsonView::Array(items) ==> order::picks(
                        (#[trigger] tsconfig::options_of(root).paths[i]).1,
                        items.len(),
                        |k: int| items[k] is Text,
                        |k: int| items[k]->Text_0,
                    ))
            },
        tsconfig::options_of(root).paths.len() > 0 ==> exists|c: JsonView, ms: Seq<(Seq<char>, JsonView)>| #[trigger]
            is_member(root, "compilerOptions"@, c) && #[trigger] is_member(c, "paths"@, JsonView::Object(ms)),
{
    let o = tsconfig::options_of(root);
    let top = json::member(root, "compilerOptions"@);
    if let Some(c) = top {
        law_member(root, "compilerOptions"@, c);
        if let Some(v) = json::member(c, "paths"@) {
            law_member(c, "paths"@, v);
        }
        if let Some(v) = json::member(c, "baseUrl"@) {
            law_member(c, "baseUrl"@, v);
        }
    }
    assert forall|s: Seq<char>| o.base_url == Some(s) <==> exists|c: JsonView| #[trigger]
        is_member(root, "compilerOptions"@, c) && is_member(c, "baseUrl"@, JsonView::Text(s)) by {
        if exists|c: JsonView| #[trigger]
            is_member(root, "compilerOptions"@, c) && is_member(c, "baseUrl"@, JsonView::Text(s)) {
            let c = choose|c: JsonView| #[trigger]
                is_member(root, "compilerOptions"@, c) && is_member(c, "baseUrl"@, JsonView::Text(s));
            law_member(root, "compilerOptions"@, c);
            law_member(c, "baseUrl"@, JsonView::Text(s));
        }
    }
    assert forall|c: JsonView, ms: Seq<(Seq<char>, JsonView)>| #[trigger]
        is_member(root, "compilerOptions"@, c) && #[trigger] is_member(c, "paths"@, JsonView::Object(ms)) implies {
        &&& o.paths.len() == ms.len()
        &&& forall|i: int| 0 <= i < ms.len() ==> (#[trigger] o.paths[i]).0 == ms[i].0
        &&& forall|i: int|
            0 <= i < ms.len() ==> (ms[i].1 matches JsonView::Array(items) ==> order::picks(
                (#[trigger] o.paths[i]).1,
                items.len(),
                |k: int| items[k] is Text,
                |k: int| items[k]->Text_0,
            ))
    } by {
        law_member(root, "compilerOptions"@, c);
        law_member(c, "paths"@, JsonView::Object(ms));
        assert forall|i: int| 0 <= i < ms.len() implies (ms[i].1 matches JsonView::Array(items) ==> order::picks(
            (#[trigger] o.paths[i]).1,
            items.len(),
            |k: int| items[k] is Text,
            |k: int| items[k]->Text_0,
        )) by {
            if let JsonView::Array(items) = ms[i].1 {
                lemma_texts(items, items.len());
            }
        }
    }
}
/// The exclude list of a project is set aside for what is read to find contracts and templates, and for
/// nothing else.
pub proof fn law_exclude_list(set: SourceSet)
    ensures
        walk::honours_exclude_list(set) <==> set != SourceSet::Graphql && set != SourceSet::OpenApi && set
            != SourceSet::Proto && set != SourceSet::Templates,
{
}

/// The key of a file is taken apart into the parts of its path again: no two paths share one.
pub proof fn law_key_parts(parts: Seq<Seq<char>>)
    requires
        parts.len() > 0,
        forall|i: int| 0 <= i < parts.len() ==> (#[trigger] parts[i]).len() > 0 && !parts[i].contains('/'),
    ensures
        walk::key_of(parts) is Some,
        text::split_on(walk::key_of(parts)->0, '/') == parts,
{
    reveal_strlit("/");
    assert("/"@ =~= seq!['/']);
    text::lemma_split_joined(parts, "/"@, '/');
    let key = text::joined(parts, "/"@);
    if key.len() == 0 {
        assert(key =~= Seq::empty());
        text::lemma_split_whole(key, '/');
        assert(parts[0].len() > 0);
        assert(parts =~= seq![key]);
    }
}

} // verus!
