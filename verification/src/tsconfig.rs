//! The resolver options of a `tsconfig.json`.
//!
//! Whatever is missing or malformed gives the default: reading the options never fails.
use vstd::prelude::*;

use crate::json;
use crate::json::{Json, JsonView};
use crate::text;

verus! {

/// A path pattern and what it stands for.
#[derive(Debug, PartialEq, Eq)]
pub struct PathMapping {
    pub pattern: String,
    pub targets: Vec<String>,
}

/// How import specifiers are resolved.
#[derive(Debug, PartialEq, Eq)]
pub struct ResolveOptions {
    pub base_url: Option<String>,
    pub paths: Vec<PathMapping>,
}

/// The value of a [`ResolveOptions`].
pub struct OptionsView {
    pub base_url: Option<Seq<char>>,
    pub paths: Seq<(Seq<char>, Seq<Seq<char>>)>,
}

impl View for ResolveOptions {
    type V = OptionsView;

    open spec fn view(&self) -> OptionsView {
        OptionsView {
            base_url: text::opt_view(self.base_url),
            paths: Seq::new(
                self.paths@.len(),
                |i: int| (self.paths@[i].pattern@, text::views(self.paths@[i].targets@)),
            ),
        }
    }
}

/// The default options.
pub open spec fn no_options() -> OptionsView {
    OptionsView { base_url: None, paths: Seq::empty() }
}

impl Default for ResolveOptions {
    fn default() -> (r: ResolveOptions)
        ensures
            r@ == no_options(),
    {
        let r = ResolveOptions { base_url: None, paths: Vec::new() };
        assert(r@.paths =~= no_options().paths);
        r
    }
}

/// The texts among the first `n` items.
pub open spec fn texts_of(items: Seq<JsonView>, n: nat) -> Seq<Seq<char>>
    decreases n,
{
    if n == 0 {
        Seq::empty()
    } else {
        let rest = texts_of(items, (n - 1) as nat);
        match items[n - 1] {
            JsonView::Text(s) => rest.push(s),
            _ => rest,
        }
    }
}

/// The targets of a pattern: the texts of an array, none of any other value.
pub open spec fn targets_of(j: JsonView) -> Seq<Seq<char>> {
    match j {
        JsonView::Array(items) => texts_of(items, items.len()),
        _ => Seq::empty(),
    }
}

/// The options that a JSON value states.
pub open spec fn options_of(root: JsonView) -> OptionsView {
    match json::member(root, "compilerOptions"@) {
        None => no_options(),
        Some(c) => OptionsView {
            base_url: match json::member(c, "baseUrl"@) {
                Some(JsonView::Text(s)) => Some(s),
                _ => None,
            },
            paths: match json::member(c, "paths"@) {
                Some(JsonView::Object(members)) => Seq::new(
                    members.len(),
                    |i: int| (members[i].0, targets_of(members[i].1)),
                ),
                _ => Seq::empty(),
            },
        },
    }
}

fn collect_targets(j: &Json) -> (r: Vec<String>)
    ensures
        text::views(r@) == targets_of(json::value_of(*j)),
{
    let mut out: Vec<String> = Vec::new();
    match j {
        Json::Array(items) => {
            let ghost iv = match json::value_of(*j) {
                JsonView::Array(v) => v,
                _ => Seq::empty(),
            };
            assert(text::views(out@) =~= texts_of(iv, 0));
            let mut i: usize = 0;
            while i < items.len()
                invariant
                    i <= items@.len(),
                    iv.len() == items@.len(),
                    forall|k: int| 0 <= k < iv.len() ==> (#[trigger] iv[k]) == json::value_of(items@[k]),
                    text::views(out@) == texts_of(iv, i as nat),
                decreases items@.len() - i,
            {
                assert(iv[i as int] == json::value_of(items@[i as int]));
                match &items[i] {
                    Json::Text(s) => {
                        let ghost before = text::views(out@);
                        out.push(s.clone());
                        assert(text::views(out@) =~= before.push(s@));
                    },
                    _ => {},
                }
                i = i + 1;
            }
        },
        _ => {
            assert(text::views(out@) =~= Seq::<Seq<char>>::empty());
        },
    }
    out
}

/// The options that a JSON value states.
pub fn options_from_json(root: &Json) -> (r: ResolveOptions)
    ensures
        r@ == options_of(json::value_of(*root)),
{
    match root.get("compilerOptions") {
        None => ResolveOptions::default(),
        Some(c) => {
            let base_url = match c.get("baseUrl") {
                Some(Json::Text(s)) => Some(s.clone()),
                _ => None,
            };
            let mut paths: Vec<PathMapping> = Vec::new();
            let found = c.get("paths");
            match found {
                Some(Json::Object(members)) => {
                    let ghost mv = match json::value_of(*found.unwrap()) {
                        JsonView::Object(m) => m,
                        _ => Seq::empty(),
                    };
                    let mut i: usize = 0;
                    while i < members.len()
                        invariant
                            i <= members@.len(),
                            mv.len() == members@.len(),
                            forall|k: int|
                                0 <= k < mv.len() ==> (#[trigger] mv[k]) == (
                                    members@[k].name@,
                                    json::value_of(members@[k].value),
                                ),
                            paths@.len() == i,
                            forall|k: int|
                                0 <= k < i ==> (#[trigger] paths@[k]).pattern@ == mv[k].0 && text::views(
                                    paths@[k].targets@,
                                ) == targets_of(mv[k].1),
                        decreases members@.len() - i,
                    {
                        assert(mv[i as int].0 == members@[i as int].name@);
                        paths.push(
                            PathMapping {
                                pattern: members[i].name.clone(),
                                targets: collect_targets(&members[i].value),
                            },
                        );
                        i = i + 1;
                    }
                },
                _ => {},
            }
            let r = ResolveOptions { base_url, paths };
            assert(r@.paths =~= options_of(json::value_of(*root)).paths);
            r
        },
    }
}

/// The options that a text states: the default where it is no JSON.
pub open spec fn parsed_options(contents: Seq<char>) -> OptionsView {
    match json::json_value(contents) {
        Some(root) => options_of(root),
        None => no_options(),
    }
}

/// The resolver options of a `tsconfig.json` with these contents.
pub fn parse_tsconfig(contents: &str) -> (r: ResolveOptions)
    ensures
        r@ == parsed_options(contents@),
{
    match json::parse_json(contents) {
        Some(root) => options_from_json(&root),
        None => ResolveOptions::default(),
    }
}

} // verus!
