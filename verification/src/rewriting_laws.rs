//! How the text of a file is rewritten, told by its bytes and its edits.
use vstd::prelude::*;

use crate::hashing;
use crate::lang;
use crate::order;
use crate::rename;
use crate::rename::{Grammar, PlannedEdit};

verus! {

proof fn lemma_starts(bytes: Seq<u8>, n: nat)
    requires
        n <= bytes.len(),
    ensures
        ({
            let s = rename::starts_upto(bytes, n);
            &&& s.len() >= 1 && s[0] == 0
            &&& s.len() == 1 + order::counted(|k: int| bytes[k] == 10, n)
            &&& forall|i: int| 1 <= i < s.len() ==> 0 < #[trigger] s[i] <= n && bytes[s[i] - 1] == 10
            &&& forall|i: int, j: int| 0 <= i < j < s.len() ==> #[trigger] s[i] < #[trigger] s[j]
        }),
    decreases n,
{
    if n > 0 {
        let m = (n - 1) as nat;
        lemma_starts(bytes, m);
        let rest = rename::starts_upto(bytes, m);
        let s = rename::starts_upto(bytes, n);
        assert forall|i: int, j: int| 0 <= i < j < s.len() implies #[trigger] s[i] < #[trigger] s[j] by {
            if j < rest.len() {
                assert(s[i] == rest[i] && s[j] == rest[j]);
            } else {
                assert(s[i] == rest[i]);
                if i > 0 {
                    assert(rest[i] <= m);
                }
            }
        }
        assert forall|i: int| 1 <= i < s.len() implies 0 < #[trigger] s[i] <= n && bytes[s[i] - 1] == 10 by {
            if i < rest.len() {
                assert(s[i] == rest[i]);
            }
        }
    }
}

/// The first line of a file starts at its first byte, and every other right behind a line feed; there is
/// one more line than there are line feeds, and they stand in order.
pub proof fn law_line_starts(bytes: Seq<u8>)
    ensures
        ({
            let s = rename::line_starts(bytes);
            &&& s.len() == 1 + order::counted(|k: int| bytes[k] == 10, bytes.len())
            &&& s[0] == 0
            &&& forall|i: int| 1 <= i < s.len() ==> 0 < #[trigger] s[i] <= bytes.len() && bytes[s[i] - 1] == 10
            &&& forall|i: int, j: int| 0 <= i < j < s.len() ==> #[trigger] s[i] < #[trigger] s[j]
        }),
{
    lemma_starts(bytes, bytes.len());
}

proof fn lemma_own(edits: Seq<PlannedEdit>, file: Seq<char>, n: nat)
    requires
        n <= edits.len(),
    ensures
        order::picks(rename::edits_for(edits, file, n), n, |i: int| edits[i].file == file, |i: int| edits[i]),
    decreases n,
{
    let hit = |i: int| edits[i].file == file;
    let item = |i: int| edits[i];
    if n > 0 {
        let m = (n - 1) as nat;
        lemma_own(edits, file, m);
        order::lemma_picks_next(
            rename::edits_for(edits, file, m),
            rename::edits_for(edits, file, n),
            m,
            hit,
            item,
        );
    } else {
        order::lemma_picks_none(hit, item);
    }
}

/// The edits of a file are those in it, all of them and in their order.
pub proof fn law_own_edits(edits: Seq<PlannedEdit>, file: Seq<char>)
    ensures
        order::picks(
            rename::edits_for(edits, file, edits.len()),
            edits.len(),
            |i: int| edits[i].file == file,
            |i: int| edits[i],
        ),
{
    lemma_own(edits, file, edits.len());
}

/// The edits of a file are made from the last place to the first, and none is left out.
pub proof fn law_edits_reversed(s: Seq<PlannedEdit>)
    ensures
        rename::reversed_edits(s).len() == s.len(),
        forall|e: PlannedEdit| #[trigger] rename::reversed_edits(s).contains(e) == s.contains(e),
        forall|i: int, j: int|
            0 <= i < j < s.len() ==> {
                let a = #[trigger] rename::reversed_edits(s)[i];
                let b = #[trigger] rename::reversed_edits(s)[j];
                a.line > b.line || (a.line == b.line && a.col >= b.col)
            },
{
    let keys = rename::reverse_keys(s);
    order::law_sorting_keeps(s, keys);
    order::law_stable_order_exists(keys);
    let at = order::order_of(keys);
    let r = rename::reversed_edits(s);
    assert forall|i: int, j: int| 0 <= i < j < s.len() implies {
        let a = #[trigger] r[i];
        let b = #[trigger] r[j];
        a.line > b.line || (a.line == b.line && a.col >= b.col)
    } by {
        assert(order::stands_before(keys, at[i], at[j]));
        order::lemma_text_total(keys[at[i]].first, keys[at[j]].first);
        order::lemma_text_total(keys[at[i]].second, keys[at[j]].second);
    }
}

/// An edit is made at its column of its line, counted from one, and only where the old name stands there:
/// the new name takes its place, and what stands before and after it stays. Any other edit changes
/// nothing.
pub proof fn law_edit_made(bytes: Seq<u8>, starts: Seq<int>, e: PlannedEdit)
    requires
        e.line >= 1,
    ensures
        ({
            let old = hashing::utf8(e.old);
            let new = hashing::utf8(e.new);
            let at = starts[e.line - 1] + e.col;
            let r = rename::with_edit(bytes, starts, e);
            let stands = e.line <= starts.len() && at + old.len() <= bytes.len() && bytes.subrange(at, at + old.len()) == old;
            &&& !stands ==> r == bytes
            &&& stands && 0 <= at ==> {
                &&& r.len() == bytes.len() - old.len() + new.len()
                &&& forall|i: int| 0 <= i < at ==> #[trigger] r[i] == bytes[i]
                &&& r.subrange(at, at + new.len()) == new
                &&& forall|i: int| at + new.len() <= i < r.len() ==> #[trigger] r[i] == bytes[i - new.len() + old.len()]
            }
        }),
{
    let old = hashing::utf8(e.old);
    let new = hashing::utf8(e.new);
    let at = starts[e.line - 1] + e.col;
    let r = rename::with_edit(bytes, starts, e);
    if e.line <= starts.len() && 0 <= at && at + old.len() <= bytes.len() && bytes.subrange(at, at + old.len()) == old {
        assert(r =~= bytes.take(at) + new + bytes.skip(at + old.len()));
        assert(r.subrange(at, at + new.len()) =~= new);
    }
}

/// The grammar of a file hangs on its extension alone.
pub proof fn law_grammar(file: Seq<char>)
    ensures
        ({
            let e = lang::extension(file);
            let g = rename::grammar_of(file);
            &&& g == Some(Grammar::TypeScript) <==> e == "ts"@
            &&& g == Some(Grammar::Tsx) <==> e == "tsx"@
            &&& g == Some(Grammar::JavaScript) <==> e == "js"@ || e == "jsx"@ || e == "mjs"@ || e == "cjs"@
            &&& g == Some(Grammar::Python) <==> e == "py"@ || e == "pyi"@
            &&& g == Some(Grammar::CSharp) <==> e == "cs"@ || e == "csx"@
            &&& g == Some(Grammar::Rust) <==> e == "rs"@
        }),
{
    let e = lang::extension(file);
    lang::law_language(file);
    reveal_strlit("ts");
    reveal_strlit("tsx");
    reveal_strlit("js");
    reveal_strlit("jsx");
    reveal_strlit("mjs");
    reveal_strlit("cjs");
    reveal_strlit("py");
    reveal_strlit("pyi");
    reveal_strlit("cs");
    reveal_strlit("csx");
    reveal_strlit("rs");
    reveal_strlit("rust");
    assert("ts"@[0] == 't' && "py"@[0] == 'p' && "cs"@[0] == 'c' && "rust"@[0] == 'r');
    assert("tsx"@.len() == 3 && "ts"@.len() == 2);
    assert("js"@[0] == 'j' && "jsx"@[0] == 'j' && "mjs"@[0] == 'm' && "cjs"@[1] == 'j' && "cs"@[1] == 's' && "csx"@[1]
        == 's');
    assert("tsx"@[0] == 't' && "pyi"@[0] == 'p' && "csx"@[0] == 'c' && "cjs"@[0] == 'c' && "rs"@[0] == 'r');
}
/// A file that no edit is in stays as it is.
pub proof fn law_other_files_stay(content: Seq<char>, edits: Seq<PlannedEdit>, file: Seq<char>)
    requires
        forall|i: int| 0 <= i < edits.len() ==> (#[trigger] edits[i]).file != file,
    ensures
        rename::rewritten(content, edits, file) == hashing::utf8(content),
{
    let own = rename::edits_for(edits, file, edits.len());
    lemma_own(edits, file, edits.len());
    order::lemma_counted(|i: int| edits[i].file == file, edits.len());
    assert(own.len() == 0);
    law_edits_reversed(own);
}

/// A file with one edit has that edit made.
pub proof fn law_one_edit(content: Seq<char>, edits: Seq<PlannedEdit>, file: Seq<char>, e: PlannedEdit)
    requires
        edits == seq![e],
        e.file == file,
    ensures
        rename::rewritten(content, edits, file) == rename::with_edit(
            hashing::utf8(content),
            rename::line_starts(hashing::utf8(content)),
            e,
        ),
{
    assert(rename::edits_for(edits, file, 0) =~= Seq::empty());
    assert(edits[0] == e);
    let own = rename::edits_for(edits, file, 1);
    assert(own =~= seq![e]);
    law_edits_reversed(own);
    let r = rename::reversed_edits(own);
    assert(own.contains(own[0]));
    assert(r.contains(r[0]));
    assert(own.contains(r[0]));
    assert(r[0] == e);
    let bytes = hashing::utf8(content);
    let starts = rename::line_starts(bytes);
    assert(rename::with_edits(bytes, starts, r, 0) == bytes);
}

} // verus!
