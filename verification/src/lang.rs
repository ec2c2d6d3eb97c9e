//! Which language plane a file belongs to.
use vstd::prelude::*;

use crate::text;

verus! {

/// What follows the last dot of a path, in lower case: the whole path where there is no dot.
pub open spec fn extension(path: Seq<char>) -> Seq<char> {
    text::lower(text::after_last(path, '.'))
}

/// Whether `ext` is an extension of TypeScript or JavaScript.
pub open spec fn ts_extension(ext: Seq<char>) -> bool {
    ext == "ts"@ || ext == "tsx"@ || ext == "js"@ || ext == "jsx"@ || ext == "mjs"@ || ext == "cjs"@
}

/// Whether `ext` is an extension of Python.
pub open spec fn py_extension(ext: Seq<char>) -> bool {
    ext == "py"@ || ext == "pyi"@
}

/// Whether `ext` is an extension of C#.
pub open spec fn cs_extension(ext: Seq<char>) -> bool {
    ext == "cs"@ || ext == "csx"@
}

/// The language tag of a file: none where no code analyzer claims its extension.
pub open spec fn language(path: Seq<char>) -> Option<Seq<char>> {
    let ext = extension(path);
    if ts_extension(ext) {
        Some("ts"@)
    } else if py_extension(ext) {
        Some("py"@)
    } else if cs_extension(ext) {
        Some("cs"@)
    } else if ext == "rs"@ {
        Some("rust"@)
    } else {
        None
    }
}

/// What follows the last dot of a path, in lower case.
pub fn extension_of(path: &str) -> (r: String)
    ensures
        r@ == extension(path@),
{
    let ext = text::after_last_of(path, '.');
    text::to_lower(ext.as_str())
}

/// The language tag of a file, by its extension.
pub fn code_language_of(path: &str) -> (r: Option<&'static str>)
    ensures
        match r {
            Some(l) => language(path@) == Some(l@),
            None => language(path@) is None,
        },
{
    let ext = extension_of(path);
    let e = ext.as_str();
    if text::same(e, "ts") || text::same(e, "tsx") || text::same(e, "js") || text::same(e, "jsx") || text::same(
        e,
        "mjs",
    ) || text::same(e, "cjs") {
        Some("ts")
    } else if text::same(e, "py") || text::same(e, "pyi") {
        Some("py")
    } else if text::same(e, "cs") || text::same(e, "csx") {
        Some("cs")
    } else if text::same(e, "rs") {
        Some("rust")
    } else {
        None
    }
}

/// The language tag of a file, with `ts` for a file that no code analyzer claims.
pub open spec fn language_or_ts(path: Seq<char>) -> Seq<char> {
    match language(path) {
        Some(l) => l,
        None => "ts"@,
    }
}

/// The language tag of a file, with `ts` for a file that no code analyzer claims.
pub fn code_lang(path: &str) -> (r: &'static str)
    ensures
        r@ == language_or_ts(path@),
{
    match code_language_of(path) {
        Some(l) => l,
        None => "ts",
    }
}

/// The extension of a path is what stands behind its last dot, in lower case.
pub proof fn law_extension(stem: Seq<char>, ext: Seq<char>)
    requires
        !ext.contains('.'),
    ensures
        extension(stem + seq!['.'] + ext) == text::lower(ext),
        extension(ext) == text::lower(ext),
{
    let path = stem + seq!['.'] + ext;
    text::lemma_last_position(path, '.');
    text::lemma_last_position(ext, '.');
    assert(path[stem.len() as int] == '.');
    if let Some(i) = text::last_position(path, '.') {
        if i > stem.len() {
            assert(ext[i - stem.len() - 1] == '.');
            assert(ext.contains(ext[i - stem.len() - 1]));
        }
        assert(path.skip(i + 1) =~= ext);
    }
    if let Some(i) = text::last_position(ext, '.') {
        assert(ext.contains(ext[i]));
    }
}

/// The language of a file hangs on its extension alone: the six of TypeScript and JavaScript give one
/// language, the two of Python, the two of C# and the one of Rust another each, and any other gives none.
pub proof fn law_language(path: Seq<char>)
    ensures
        ({
            let e = extension(path);
            let l = language(path);
            &&& l == Some("ts"@) <==> seq!["ts"@, "tsx"@, "js"@, "jsx"@, "mjs"@, "cjs"@].contains(e)
            &&& l == Some("py"@) <==> seq!["py"@, "pyi"@].contains(e)
            &&& l == Some("cs"@) <==> seq!["cs"@, "csx"@].contains(e)
            &&& l == Some("rust"@) <==> e == "rs"@
            &&& l is None || l == Some("ts"@) || l == Some("py"@) || l == Some("cs"@) || l == Some("rust"@)
            &&& l is None ==> language_or_ts(path) == "ts"@
            &&& l is Some ==> l == Some(language_or_ts(path))
        }),
{
    let e = extension(path);
    reveal_strlit("ts");
    reveal_strlit("tsx");
    reveal_strlit("js");
    reveal_strlit("jsx");
    reveal_strlit("mjs");
    reveal_strlit("cjs");
    reveal_strlit("py");
    reveal_strlit("pyi");
    reveal_strlit("cs");
    reveal_strlit("csx");
    reveal_strlit("rs");
    reveal_strlit("rust");
    let ts = seq!["ts"@, "tsx"@, "js"@, "jsx"@, "mjs"@, "cjs"@];
    let py = seq!["py"@, "pyi"@];
    let cs = seq!["cs"@, "csx"@];
    assert(ts.contains(e) == ts_extension(e)) by {
        assert(ts[0] == "ts"@ && ts[1] == "tsx"@ && ts[2] == "js"@ && ts[3] == "jsx"@ && ts[4] == "mjs"@ && ts[5]
            == "cjs"@);
    }
    assert(py.contains(e) == py_extension(e)) by {
        assert(py[0] == "py"@ && py[1] == "pyi"@);
    }
    assert(cs.contains(e) == cs_extension(e)) by {
        assert(cs[0] == "cs"@ && cs[1] == "csx"@);
    }
    let t = "ts"@;
    let p = "py"@;
    let c = "cs"@;
    let r = "rust"@;
    assert(t[0] == 't' && p[0] == 'p' && c[0] == 'c' && r[0] == 'r');
    if ts_extension(e) {
        assert(e[0] == 't' || e[0] == 'j' || e[0] == 'm' || (e[0] == 'c' && e[1] == 'j'));
    }
    if py_extension(e) {
        assert(e[0] == 'p');
    }
    if cs_extension(e) {
        assert(e[0] == 'c' && e[1] == 's');
    }
    if e == "rs"@ {
        assert(e[0] == 'r');
    }
}

} // verus!
