//! Which files of a repository exist.
use vstd::prelude::*;

use crate::text;

verus! {

/// A set of files in memory, by repository-relative path.
pub struct BTreeMapModuleFs<'a> {
    keys: &'a Vec<String>,
}

impl<'a> BTreeMapModuleFs<'a> {
    /// The paths of the files.
    pub closed spec fn paths(&self) -> Seq<String> {
        self.keys@
    }

    /// The files with these paths.
    pub fn new(keys: &'a Vec<String>) -> (r: BTreeMapModuleFs<'a>)
        ensures
            r.paths() == keys@,
    {
        BTreeMapModuleFs { keys }
    }

    /// Whether a file has exactly this path.
    pub fn has_file(&self, path: &str) -> (r: bool)
        ensures
            r == text::holds(self.paths(), path@),
    {
        text::contains_text(self.keys, path)
    }
}

/// The files on disk below a directory.
pub struct FsModuleFs {
    root: String,
}

/// Whether a part of a path leads nowhere.
pub open spec fn idle(part: Seq<char>) -> bool {
    part.len() == 0 || part == "."@
}

/// How deep below the root the first `n` parts of a path lead.
pub open spec fn depth(parts: Seq<Seq<char>>, n: nat) -> int
    decreases n,
{
    if n == 0 {
        0
    } else {
        let d = depth(parts, (n - 1) as nat);
        if idle(parts[n - 1]) {
            d
        } else if parts[n - 1] == ".."@ {
            d - 1
        } else {
            d + 1
        }
    }
}

/// Whether one of the first `n` parts of a path leads out of the root.
pub open spec fn leaves_root(parts: Seq<Seq<char>>, n: nat) -> bool
    decreases n,
{
    n > 0 && (leaves_root(parts, (n - 1) as nat) || depth(parts, n) < 0)
}

/// Those of the first `n` parts of a path that lead somewhere.
pub open spec fn steps(parts: Seq<Seq<char>>, n: nat) -> Seq<Seq<char>>
    decreases n,
{
    if n == 0 {
        Seq::empty()
    } else if idle(parts[n - 1]) {
        steps(parts, (n - 1) as nat)
    } else {
        steps(parts, (n - 1) as nat).push(parts[n - 1])
    }
}

impl FsModuleFs {
    /// The directory.
    pub closed spec fn dir(&self) -> Seq<char> {
        self.root@
    }

    /// The files below `root`.
    pub fn new(root: &str) -> (r: FsModuleFs)
        ensures
            r.dir() == root@,
    {
        FsModuleFs { root: root.to_owned() }
    }

    /// The directory.
    pub fn root(&self) -> (r: &str)
        ensures
            r@ == self.dir(),
    {
        self.root.as_str()
    }

    /// The steps from the root to a path: none where the path leads out of the root, so that there
    /// is no such file.
    pub fn locate(&self, path: &str) -> (r: Option<Vec<String>>)
        ensures
            ({
                let parts = text::split_on(path@, '/');
                match r {
                    Some(s) => !leaves_root(parts, parts.len()) && text::views(s@) == steps(parts, parts.len()),
                    None => leaves_root(parts, parts.len()),
                }
            }),
    {
        let pieces = text::split_char(path, '/');
        let ghost parts = text::split_on(path@, '/');
        assert(parts.len() == pieces@.len());
        let mut out: Vec<String> = Vec::new();
        assert(text::views(out@) =~= steps(parts, 0));
        let mut deep: usize = 0;
        let mut i: usize = 0;
        while i < pieces.len()
            invariant
                i <= pieces@.len(),
                parts == text::views(pieces@),
                parts == text::split_on(path@, '/'),
                text::views(out@) == steps(parts, i as nat),
                !leaves_root(parts, i as nat),
                deep == depth(parts, i as nat),
                deep <= i,
            decreases pieces@.len() - i,
        {
            let part = pieces[i].as_str();
            assert(parts[i as int] == part@);
            let ghost before = text::views(out@);
            if part.is_empty() || text::same(part, ".") {
            } else {
                if text::same(part, "..") {
                    if deep == 0 {
                        proof {
                            lemma_leaves_root_stays(parts, (i + 1) as nat, parts.len());
                        }
                        return None;
                    }
                    deep = deep - 1;
                } else {
                    deep = deep + 1;
                }
                out.push(pieces[i].clone());
                assert(text::views(out@) =~= before.push(part@));
            }
            i = i + 1;
        }
        Some(out)
    }
}

proof fn lemma_leaves_root_stays(parts: Seq<Seq<char>>, i: nat, n: nat)
    requires
        i <= n,
        leaves_root(parts, i),
    ensures
        leaves_root(parts, n),
    decreases n,
{
    if i < n {
        lemma_leaves_root_stays(parts, i, (n - 1) as nat);
    }
}

} // verus!
