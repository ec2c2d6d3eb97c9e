//! What a set of changed files changes, told by the two revisions of each.
use vstd::prelude::*;

use crate::analysis::RawSymbol;
use crate::changes;
use crate::changes::{
    ChangeKind, ChangeScope, ContractChange, FileChangeView, FileDiff, Plane, Revision, SourceView, SymbolView,
};
use crate::contract::OperationDef;
use crate::lang;
use crate::model;
use crate::order;
use crate::ordmap;
use crate::text;

verus! {

// ----------------------------------------------------------------------------------------------
// The lines of a symbol
// ----------------------------------------------------------------------------------------------

/// The text of a span is that of its lines: line zero is line one, lines behind the last one are none, a
/// single line is itself, and one line more stands behind a line break.
pub proof fn law_span_text(lines: Seq<Seq<char>>, start: u32, end: u32)
    ensures
        changes::span_text(lines, 0, end) == changes::span_text(lines, 1, end),
        end >= lines.len() ==> changes::span_text(lines, start, end) == changes::span_text(lines, start, u32::MAX)
            || lines.len() > u32::MAX,
        start > end ==> changes::span_text(lines, start, end).len() == 0,
        start > lines.len() ==> changes::span_text(lines, start, end).len() == 0,
        0 < start == end <= lines.len() ==> changes::span_text(lines, start, end) == lines[start - 1],
        0 < start <= end < lines.len() && end < u32::MAX ==> changes::span_text(lines, start, (end + 1) as u32)
            == changes::span_text(lines, start, end) + seq!['\n'] + lines[end as int],
{
    reveal_strlit("\n");
    assert("\n"@ =~= seq!['\n']);
    if 0 < start == end <= lines.len() {
        let part = lines.subrange(start - 1, end as int);
        assert(part.len() == 1 && part[0] == lines[start - 1]);
        assert(text::joined(part, "\n"@) =~= part[0]);
    }
    if 0 < start <= end < lines.len() && end < u32::MAX {
        let a = lines.subrange(start - 1, end as int);
        let b = lines.subrange(start - 1, end + 1);
        assert(b.drop_last() =~= a);
        assert(b.last() == lines[end as int]);
    }
}

/// Whether symbol `i` is the first of its qualified name.
pub open spec fn first_symbol(symbols: Seq<RawSymbol>, key: Seq<char>, i: int) -> bool {
    &&& 0 <= i < symbols.len()
    &&& symbols[i].fqn@ == key
    &&& forall|k: int| 0 <= k < i ==> (#[trigger] symbols[k]).fqn@ != key
}

/// Whether operation `i` is the first of its key.
pub open spec fn first_operation(ops: Seq<OperationDef>, key: Seq<char>, i: int) -> bool {
    &&& 0 <= i < ops.len()
    &&& ops[i].key@ == key
    &&& forall|k: int| 0 <= k < i ==> (#[trigger] ops[k]).key@ != key
}

/// Whether the code of a revision gives a name a body: the lines of its first symbol.
pub open spec fn has_body(r: Option<&Revision>, key: Seq<char>, body: Seq<char>) -> bool {
    r matches Some(rev) && exists|i: int| #[trigger]
        first_symbol(rev.symbols@, key, i) && body == changes::span_text(
            text::lines(rev.content@),
            rev.symbols@[i].span.start_line,
            rev.symbols@[i].span.end_line,
        )
}

/// Whether a revision gives an operation key a signature: the method and the normalized path of its first
/// operation.
pub open spec fn has_signature(r: Option<&Revision>, key: Seq<char>, sig: Seq<char>) -> bool {
    r matches Some(rev) && exists|i: int| #[trigger]
        first_operation(rev.operations@, key, i) && sig == rev.operations@[i].method@ + seq![' ']
            + rev.operations@[i].norm_path@
}

/// Whether a revision gives a resource a signature.
pub open spec fn has_resource(r: Option<&Revision>, key: Seq<char>, sig: Seq<char>) -> bool {
    r matches Some(rev) && rev.resources.map().dom().contains(key) && rev.resources.map()[key]@ == sig
}

spec fn gives(m: Map<Seq<char>, Seq<char>>, way: spec_fn(Seq<char>, Seq<char>) -> bool) -> bool {
    forall|k: Seq<char>, v: Seq<char>| #[trigger] way(k, v) == (m.dom().contains(k) && m[k] == v)
}

proof fn lemma_bodies(symbols: Seq<RawSymbol>, lines: Seq<Seq<char>>, n: nat, key: Seq<char>)
    requires
        n <= symbols.len(),
    ensures
        ({
            let m = changes::bodies_upto(symbols, lines, n);
            &&& m.dom().contains(key) <==> exists|i: int| i < n && #[trigger] first_symbol(symbols, key, i)
            &&& forall|i: int|
                i < n && #[trigger] first_symbol(symbols, key, i) ==> m[key] == changes::span_text(
                    lines,
                    symbols[i].span.start_line,
                    symbols[i].span.end_line,
                )
        }),
    decreases n,
{
    if n > 0 {
        let last = n - 1;
        lemma_bodies(symbols, lines, (n - 1) as nat, key);
        let rest = changes::bodies_upto(symbols, lines, (n - 1) as nat);
        if symbols[last].fqn@ == key {
            if rest.dom().contains(key) {
                assert(!first_symbol(symbols, key, last)) by {
                    let i = choose|i: int| i < n - 1 && #[trigger] first_symbol(symbols, key, i);
                    assert(symbols[i].fqn@ == key);
                }
            } else {
                assert(first_symbol(symbols, key, last)) by {
                    if exists|k: int| 0 <= k < last && (#[trigger] symbols[k]).fqn@ == key {
                        let k = choose|k: int| 0 <= k < last && (#[trigger] symbols[k]).fqn@ == key;
                        let f = lemma_first(symbols, key, k);
                        assert(first_symbol(symbols, key, f));
                    }
                }
            }
        }
        assert forall|i: int| i < n && #[trigger] first_symbol(symbols, key, i) implies i < n - 1 || i == last by {}
    }
}

proof fn lemma_first(symbols: Seq<RawSymbol>, key: Seq<char>, k: int) -> (i: int)
    requires
        0 <= k < symbols.len(),
        symbols[k].fqn@ == key,
    ensures
        first_symbol(symbols, key, i),
        i <= k,
    decreases k,
{
    if first_symbol(symbols, key, k) {
        k
    } else {
        let j = choose|j: int| 0 <= j < k && (#[trigger] symbols[j]).fqn@ == key;
        lemma_first(symbols, key, j)
    }
}

proof fn lemma_signatures(ops: Seq<OperationDef>, n: nat, key: Seq<char>)
    requires
        n <= ops.len(),
    ensures
        ({
            let m = changes::signatures_upto(ops, n);
            &&& m.dom().contains(key) <==> exists|i: int| i < n && #[trigger] first_operation(ops, key, i)
            &&& forall|i: int|
                i < n && #[trigger] first_operation(ops, key, i) ==> m[key] == ops[i].method@ + seq![' ']
                    + ops[i].norm_path@
        }),
    decreases n,
{
    reveal_strlit(" ");
    assert(" "@ =~= seq![' ']);
    if n > 0 {
        let last = n - 1;
        lemma_signatures(ops, (n - 1) as nat, key);
        let rest = changes::signatures_upto(ops, (n - 1) as nat);
        if ops[last].key@ == key {
            if rest.dom().contains(key) {
                assert(!first_operation(ops, key, last)) by {
                    let i = choose|i: int| i < n - 1 && #[trigger] first_operation(ops, key, i);
                    assert(ops[i].key@ == key);
                }
            } else {
                assert(first_operation(ops, key, last)) by {
                    if exists|k: int| 0 <= k < last && (#[trigger] ops[k]).key@ == key {
                        let k = choose|k: int| 0 <= k < last && (#[trigger] ops[k]).key@ == key;
                        let f = lemma_first_op(ops, key, k);
                        assert(first_operation(ops, key, f));
                    }
                }
            }
        }
        assert forall|i: int| i < n && #[trigger] first_operation(ops, key, i) implies i < n - 1 || i == last by {}
    }
}

proof fn lemma_first_op(ops: Seq<OperationDef>, key: Seq<char>, k: int) -> (i: int)
    requires
        0 <= k < ops.len(),
        ops[k].key@ == key,
    ensures
        first_operation(ops, key, i),
        i <= k,
    decreases k,
{
    if first_operation(ops, key, k) {
        k
    } else {
        let j = choose|j: int| 0 <= j < k && (#[trigger] ops[j]).key@ == key;
        lemma_first_op(ops, key, j)
    }
}

// ----------------------------------------------------------------------------------------------
// The changes of a map
// ----------------------------------------------------------------------------------------------

spec fn listable(m: Map<Seq<char>, Seq<char>>) -> bool {
    ordmap::lists_keys(m, ordmap::sorted_keys(m))
}

proof fn lemma_key_changes(
    plane: Plane,
    file: Seq<char>,
    old: Map<Seq<char>, Seq<char>>,
    new: Map<Seq<char>, Seq<char>>,
    keys: Seq<Seq<char>>,
    removed: bool,
    n: nat,
    s: SymbolView,
)
    requires
        n <= keys.len(),
    ensures
        changes::key_changes(plane, file, old, new, keys, removed, n).contains(s) == (keys.take(n as int).contains(s.key)
            && changes::key_change(old, new, s.key) == Some(s.change) && (s.change == ChangeKind::Removed) == removed && s
            == changes::symbol_of(plane, s.change, s.key, file)),
    decreases n,
{
    if n > 0 {
        let m = (n - 1) as nat;
        let key = keys[m as int];
        lemma_key_changes(plane, file, old, new, keys, removed, m, s);
        let rest = changes::key_changes(plane, file, old, new, keys, removed, m);
        assert(keys.take(n as int) =~= keys.take(m as int).push(key));
        model::lemma_pushed(keys.take(m as int), key, s.key);
        if let Some(change) = changes::key_change(old, new, key) {
            model::lemma_pushed(rest, changes::symbol_of(plane, change, key, file), s);
        }
    } else {
        assert(keys.take(0) =~= Seq::empty());
    }
}

proof fn lemma_map_changes(
    plane: Plane,
    file: Seq<char>,
    old: Map<Seq<char>, Seq<char>>,
    new: Map<Seq<char>, Seq<char>>,
    s: SymbolView,
)
    requires
        listable(old),
        listable(new),
    ensures
        changes::map_changes(plane, file, old, new).contains(s) == (s == changes::symbol_of(
            plane,
            s.change,
            s.key,
            file,
        ) && changes::key_change(old, new, s.key) == Some(s.change)),
{
    let nk = ordmap::sorted_keys(new);
    let ok = ordmap::sorted_keys(old);
    lemma_key_changes(plane, file, old, new, nk, false, nk.len(), s);
    lemma_key_changes(plane, file, old, new, ok, true, ok.len(), s);
    assert(nk.take(nk.len() as int) =~= nk);
    assert(ok.take(ok.len() as int) =~= ok);
    model::lemma_joined(
        changes::key_changes(plane, file, old, new, nk, false, nk.len()),
        changes::key_changes(plane, file, old, new, ok, true, ok.len()),
        s,
    );
    assert(nk.contains(s.key) == new.dom().contains(s.key));
    assert(ok.contains(s.key) == old.dom().contains(s.key));
}

/// Whether a key changed as it is said to: it has no text before, or none after, or another one.
pub open spec fn is_change(
    old: spec_fn(Seq<char>) -> bool,
    new: spec_fn(Seq<char>) -> bool,
    change: ChangeKind,
) -> bool {
    let before = exists|v: Seq<char>| #[trigger] old(v);
    let after = exists|v: Seq<char>| #[trigger] new(v);
    match change {
        ChangeKind::Added => !before && after,
        ChangeKind::Removed => before && !after,
        ChangeKind::Modified => exists|v: Seq<char>, w: Seq<char>| #[trigger] old(v) && #[trigger] new(w) && v != w,
    }
}

proof fn lemma_is_change(
    old: Map<Seq<char>, Seq<char>>,
    new: Map<Seq<char>, Seq<char>>,
    key: Seq<char>,
    a: spec_fn(Seq<char>) -> bool,
    b: spec_fn(Seq<char>) -> bool,
    change: ChangeKind,
)
    requires
        forall|v: Seq<char>| #[trigger] a(v) == (old.dom().contains(key) && old[key] == v),
        forall|v: Seq<char>| #[trigger] b(v) == (new.dom().contains(key) && new[key] == v),
    ensures
        is_change(a, b, change) == (changes::key_change(old, new, key) == Some(change)),
{
    if old.dom().contains(key) {
        assert(a(old[key]));
    }
    if new.dom().contains(key) {
        assert(b(new[key]));
    }
}

proof fn lemma_bodies_in(r: Option<&Revision>)
    ensures
        gives(changes::bodies_in(r), |k: Seq<char>, v: Seq<char>| has_body(r, k, v)),
        listable(changes::bodies_in(r)),
{
    let way = |k: Seq<char>, v: Seq<char>| has_body(r, k, v);
    let m = changes::bodies_in(r);
    match r {
        Some(rev) => {
            let symbols = rev.symbols@;
            let lines = text::lines(rev.content@);
            assert forall|k: Seq<char>, v: Seq<char>| #[trigger] way(k, v) == (m.dom().contains(k) && m[k] == v) by {
                lemma_bodies(symbols, lines, symbols.len(), k);
                if m.dom().contains(k) {
                    let i = choose|i: int| i < symbols.len() && #[trigger] first_symbol(symbols, k, i);
                    assert(first_symbol(symbols, k, i));
                }
            }
            let hit = |i: int| true;
            let name = |i: int| symbols[i].fqn@;
            let l = order::lemma_listed(symbols.len(), hit, name);
            assert forall|k: Seq<char>| #[trigger] l.contains(k) == m.dom().contains(k) by {
                lemma_bodies(symbols, lines, symbols.len(), k);
                assert(l.contains(k) == exists|i: int| 0 <= i < symbols.len() && #[trigger] hit(i) && name(i) == k);
                if l.contains(k) {
                    let i = choose|i: int| 0 <= i < symbols.len() && #[trigger] hit(i) && name(i) == k;
                    let f = lemma_first(symbols, k, i);
                    assert(first_symbol(symbols, k, f));
                }
                if m.dom().contains(k) {
                    let i = choose|i: int| i < symbols.len() && #[trigger] first_symbol(symbols, k, i);
                    assert(hit(i) && name(i) == k);
                }
            }
            assert(ordmap::lists_keys(m, l));
        },
        None => {
            lemma_empty_listable(m);
        },
    }
}

proof fn lemma_empty_listable(m: Map<Seq<char>, Seq<char>>)
    requires
        m == Map::<Seq<char>, Seq<char>>::empty(),
    ensures
        listable(m),
{
    let none = Seq::<Seq<char>>::empty();
    assert(ordmap::lists_keys(m, none));
}

proof fn lemma_signatures_in(r: Option<&Revision>)
    ensures
        gives(changes::signatures_in(r), |k: Seq<char>, v: Seq<char>| has_signature(r, k, v)),
        listable(changes::signatures_in(r)),
{
    let way = |k: Seq<char>, v: Seq<char>| has_signature(r, k, v);
    let m = changes::signatures_in(r);
    match r {
        Some(rev) => {
            let ops = rev.operations@;
            assert forall|k: Seq<char>, v: Seq<char>| #[trigger] way(k, v) == (m.dom().contains(k) && m[k] == v) by {
                lemma_signatures(ops, ops.len(), k);
                if m.dom().contains(k) {
                    let i = choose|i: int| i < ops.len() && #[trigger] first_operation(ops, k, i);
                    assert(first_operation(ops, k, i));
                }
            }
            let hit = |i: int| true;
            let name = |i: int| ops[i].key@;
            let l = order::lemma_listed(ops.len(), hit, name);
            assert forall|k: Seq<char>| #[trigger] l.contains(k) == m.dom().contains(k) by {
                lemma_signatures(ops, ops.len(), k);
                assert(l.contains(k) == exists|i: int| 0 <= i < ops.len() && #[trigger] hit(i) && name(i) == k);
                if l.contains(k) {
                    let i = choose|i: int| 0 <= i < ops.len() && #[trigger] hit(i) && name(i) == k;
                    let f = lemma_first_op(ops, k, i);
                    assert(first_operation(ops, k, f));
                }
                if m.dom().contains(k) {
                    let i = choose|i: int| i < ops.len() && #[trigger] first_operation(ops, k, i);
                    assert(hit(i) && name(i) == k);
                }
            }
            assert(ordmap::lists_keys(m, l));
        },
        None => {
            lemma_empty_listable(m);
        },
    }
}

proof fn lemma_resources_in(r: Option<&Revision>)
    requires
        changes::valid_revision(r),
    ensures
        gives(changes::resources_in(r), |k: Seq<char>, v: Seq<char>| has_resource(r, k, v)),
        listable(changes::resources_in(r)),
{
    let m = changes::resources_in(r);
    match r {
        Some(rev) => {
            let l = rev.resources.key_seq();
            assert forall|k: Seq<char>| #[trigger] l.contains(k) == m.dom().contains(k) by {
                ordmap::lemma_key_seq_contains(rev.resources, k);
            }
            assert(ordmap::lists_keys(m, l));
        },
        None => {
            lemma_empty_listable(m);
        },
    }
}

// ----------------------------------------------------------------------------------------------
// All changed files
// ----------------------------------------------------------------------------------------------

/// The path that a file has now: the new one where it was renamed.
pub open spec fn is_path_of(c: FileChangeView, path: Seq<char>) -> bool {
    match c {
        FileChangeView::Added(p) => p == path,
        FileChangeView::Modified(p) => p == path,
        FileChangeView::Deleted(p) => p == path,
        FileChangeView::Renamed(_, p) => p == path,
    }
}

/// Whether a path may be that of a specification or a template.
pub open spec fn may_declare(path: Seq<char>) -> bool {
    lang::language(path) is None && seq!["graphql"@, "gql"@, "json"@, "yaml"@, "yml"@, "template"@].contains(
        lang::extension(path),
    )
}

/// Whether a symbol is a change of a file: of a body, where a code analyzer claims the file; of an
/// operation or a resource, where it may be a specification or a template.
pub open spec fn changed_in(d: FileDiff, s: SymbolView) -> bool {
    let old = changes::old_of(d);
    let new = changes::new_of(d);
    &&& is_path_of(d.change@, s.file)
    &&& s.contract_change == if s.plane != Plane::Contract {
        None
    } else if s.change == ChangeKind::Added {
        Some(ContractChange::Additive)
    } else {
        Some(ContractChange::Breaking)
    }
    &&& match s.plane {
        Plane::Code => lang::language(s.file) is Some && is_change(
            |v: Seq<char>| has_body(old, s.key, v),
            |v: Seq<char>| has_body(new, s.key, v),
            s.change,
        ),
        Plane::Contract => may_declare(s.file) && is_change(
            |v: Seq<char>| has_signature(old, s.key, v),
            |v: Seq<char>| has_signature(new, s.key, v),
            s.change,
        ),
        Plane::Infra => may_declare(s.file) && is_change(
            |v: Seq<char>| has_resource(old, s.key, v),
            |v: Seq<char>| has_resource(new, s.key, v),
            s.change,
        ),
    }
}

/// A file is claimed by the code plane where it has a language, by the contract plane where it may be a
/// specification or a template, and else by none.
pub proof fn law_plane_for_path(path: Seq<char>)
    ensures
        changes::routed(path) == Some(Plane::Code) <==> lang::language(path) is Some,
        changes::routed(path) == Some(Plane::Contract) <==> may_declare(path),
        changes::routed(path) is None <==> lang::language(path) is None && !may_declare(path),
        changes::routed(path) != Some(Plane::Infra),
{
    let e = lang::extension(path);
    let s = seq!["graphql"@, "gql"@, "json"@, "yaml"@, "yml"@, "template"@];
    assert(s[0] == "graphql"@ && s[1] == "gql"@ && s[2] == "json"@ && s[3] == "yaml"@ && s[4] == "yml"@ && s[5]
        == "template"@);
    assert(s.contains(e) == (e == "graphql"@ || e == "gql"@ || e == "json"@ || e == "yaml"@ || e == "yml"@ || e
        == "template"@));
}

proof fn lemma_file_symbols(d: FileDiff, s: SymbolView)
    requires
        changes::valid_revision(changes::old_of(d)),
        changes::valid_revision(changes::new_of(d)),
    ensures
        changes::file_symbols(d).contains(s) == changed_in(d, s),
{
    let path = changes::path_of(d.change@);
    let old = changes::old_of(d);
    let new = changes::new_of(d);
    law_plane_for_path(path);
    lemma_bodies_in(old);
    lemma_bodies_in(new);
    lemma_signatures_in(old);
    lemma_signatures_in(new);
    lemma_resources_in(old);
    lemma_resources_in(new);
    lemma_map_changes(Plane::Code, path, changes::bodies_in(old), changes::bodies_in(new), s);
    lemma_map_changes(Plane::Contract, path, changes::signatures_in(old), changes::signatures_in(new), s);
    lemma_map_changes(Plane::Infra, path, changes::resources_in(old), changes::resources_in(new), s);
    let c = changes::map_changes(Plane::Contract, path, changes::signatures_in(old), changes::signatures_in(new));
    let i = changes::map_changes(Plane::Infra, path, changes::resources_in(old), changes::resources_in(new));
    model::lemma_joined(c, i, s);
    lemma_change_of(old, new, s);
    assert(!Seq::<SymbolView>::empty().contains(s));
}

proof fn lemma_change_of(old: Option<&Revision>, new: Option<&Revision>, s: SymbolView)
    requires
        changes::valid_revision(old),
        changes::valid_revision(new),
    ensures
        is_change(|v: Seq<char>| has_body(old, s.key, v), |v: Seq<char>| has_body(new, s.key, v), s.change) == (
        changes::key_change(changes::bodies_in(old), changes::bodies_in(new), s.key) == Some(s.change)),
        is_change(|v: Seq<char>| has_signature(old, s.key, v), |v: Seq<char>| has_signature(new, s.key, v), s.change)
            == (changes::key_change(changes::signatures_in(old), changes::signatures_in(new), s.key) == Some(s.change)),
        is_change(|v: Seq<char>| has_resource(old, s.key, v), |v: Seq<char>| has_resource(new, s.key, v), s.change)
            == (changes::key_change(changes::resources_in(old), changes::resources_in(new), s.key) == Some(s.change)),
{
    lemma_bodies_in(old);
    lemma_bodies_in(new);
    lemma_signatures_in(old);
    lemma_signatures_in(new);
    lemma_resources_in(old);
    lemma_resources_in(new);
    let k = s.key;
    let ob = |k: Seq<char>, v: Seq<char>| has_body(old, k, v);
    let nb = |k: Seq<char>, v: Seq<char>| has_body(new, k, v);
    let os = |k: Seq<char>, v: Seq<char>| has_signature(old, k, v);
    let ns = |k: Seq<char>, v: Seq<char>| has_signature(new, k, v);
    let or = |k: Seq<char>, v: Seq<char>| has_resource(old, k, v);
    let nr = |k: Seq<char>, v: Seq<char>| has_resource(new, k, v);
    assert forall|v: Seq<char>| #[trigger] has_body(old, k, v) == (changes::bodies_in(old).dom().contains(k)
        && changes::bodies_in(old)[k] == v) by {
        assert(ob(k, v) == (changes::bodies_in(old).dom().contains(k) && changes::bodies_in(old)[k] == v));
    }
    assert forall|v: Seq<char>| #[trigger] has_body(new, k, v) == (changes::bodies_in(new).dom().contains(k)
        && changes::bodies_in(new)[k] == v) by {
        assert(nb(k, v) == (changes::bodies_in(new).dom().contains(k) && changes::bodies_in(new)[k] == v));
    }
    assert forall|v: Seq<char>| #[trigger] has_signature(old, k, v) == (changes::signatures_in(old).dom().contains(k)
        && changes::signatures_in(old)[k] == v) by {
        assert(os(k, v) == (changes::signatures_in(old).dom().contains(k) && changes::signatures_in(old)[k] == v));
    }
    assert forall|v: Seq<char>| #[trigger] has_signature(new, k, v) == (changes::signatures_in(new).dom().contains(k)
        && changes::signatures_in(new)[k] == v) by {
        assert(ns(k, v) == (changes::signatures_in(new).dom().contains(k) && changes::signatures_in(new)[k] == v));
    }
    assert forall|v: Seq<char>| #[trigger] has_resource(old, k, v) == (changes::resources_in(old).dom().contains(k)
        && changes::resources_in(old)[k] == v) by {
        assert(or(k, v) == (changes::resources_in(old).dom().contains(k) && changes::resources_in(old)[k] == v));
    }
    assert forall|v: Seq<char>| #[trigger] has_resource(new, k, v) == (changes::resources_in(new).dom().contains(k)
        && changes::resources_in(new)[k] == v) by {
        assert(nr(k, v) == (changes::resources_in(new).dom().contains(k) && changes::resources_in(new)[k] == v));
    }
    lemma_is_change(
        changes::bodies_in(old),
        changes::bodies_in(new),
        k,
        |v: Seq<char>| has_body(old, s.key, v),
        |v: Seq<char>| has_body(new, s.key, v),
        s.change,
    );
    lemma_is_change(
        changes::signatures_in(old),
        changes::signatures_in(new),
        k,
        |v: Seq<char>| has_signature(old, s.key, v),
        |v: Seq<char>| has_signature(new, s.key, v),
        s.change,
    );
    lemma_is_change(
        changes::resources_in(old),
        changes::resources_in(new),
        k,
        |v: Seq<char>| has_resource(old, s.key, v),
        |v: Seq<char>| has_resource(new, s.key, v),
        s.change,
    );
}

proof fn lemma_symbols(diffs: Seq<FileDiff>, n: nat, s: SymbolView)
    requires
        n <= diffs.len(),
        changes::valid_diffs(diffs),
    ensures
        changes::symbols_upto(diffs, n).contains(s) == exists|i: int| 0 <= i < n && changed_in(#[trigger] diffs[i], s),
    decreases n,
{
    if n > 0 {
        let last = n - 1;
        lemma_symbols(diffs, (n - 1) as nat, s);
        assert(changes::valid_revision(changes::old_of(diffs[last])));
        lemma_file_symbols(diffs[last], s);
        model::lemma_joined(changes::symbols_upto(diffs, (n - 1) as nat), changes::file_symbols(diffs[last]), s);
    }
}

/// What a set of changed files changes: a symbol is reported exactly if a file changed it, as added,
/// removed or modified by what its two revisions say of it. A file that no plane claims, or that may be a
/// specification or a template and changes nothing as either, is listed among the others, and no other
/// file is.
pub proof fn law_changed_symbols(diffs: Seq<FileDiff>)
    requires
        changes::valid_diffs(diffs),
    ensures
        forall|s: SymbolView| #[trigger]
            changes::sorted_symbols(changes::symbols_upto(diffs, diffs.len())).contains(s) <==> exists|i: int|
                0 <= i < diffs.len() && changed_in(#[trigger] diffs[i], s),
        forall|path: Seq<char>| #[trigger]
            changes::is_other(diffs, path, diffs.len() as int) <==> exists|i: int|
                0 <= i < diffs.len() && is_path_of((#[trigger] diffs[i]).change@, path) && lang::language(path) is None
                    && (may_declare(path) ==> forall|s: SymbolView| !#[trigger] changed_in(diffs[i], s)),
{
    let all = changes::symbols_upto(diffs, diffs.len());
    changes::lemma_symbols_in_order(all);
    assert forall|s: SymbolView| #[trigger] changes::sorted_symbols(all).contains(s) <==> exists|i: int|
        0 <= i < diffs.len() && changed_in(#[trigger] diffs[i], s) by {
        lemma_symbols(diffs, diffs.len(), s);
    }
    assert forall|i: int| 0 <= i < diffs.len() implies changes::unclaimed(#[trigger] diffs[i]) == {
        let path = changes::path_of(diffs[i].change@);
        lang::language(path) is None && (may_declare(path) ==> forall|s: SymbolView| !#[trigger]
            changed_in(diffs[i], s))
    } by {
        let path = changes::path_of(diffs[i].change@);
        law_plane_for_path(path);
        assert(changes::valid_revision(changes::old_of(diffs[i])));
        let f = changes::file_symbols(diffs[i]);
        if f.len() == 0 {
            assert forall|s: SymbolView| !#[trigger] changed_in(diffs[i], s) by {
                lemma_file_symbols(diffs[i], s);
                assert(!f.contains(s));
            }
        } else {
            lemma_file_symbols(diffs[i], f[0]);
            assert(f.contains(f[0]));
            assert(changed_in(diffs[i], f[0]));
        }
    }
}

// ----------------------------------------------------------------------------------------------
// The list of changed files
// ----------------------------------------------------------------------------------------------

/// The changes that a listing names are those of its lines: each line gives at most one, and nothing else
/// does.
pub proof fn law_listed_changes(lines: Seq<Seq<char>>, c: FileChangeView)
    ensures
        changes::changes_upto(lines, lines.len()).contains(c) <==> exists|i: int|
            0 <= i < lines.len() && changes::line_change(#[trigger] lines[i]) == Some(c),
        changes::changes_upto(lines, lines.len()).len() == order::counted(
            |i: int| changes::line_change(lines[i]) is Some,
            lines.len(),
        ),
{
    lemma_listed_changes(lines, lines.len(), c);
}

proof fn lemma_listed_changes(lines: Seq<Seq<char>>, n: nat, c: FileChangeView)
    requires
        n <= lines.len(),
    ensures
        changes::changes_upto(lines, n).contains(c) <==> exists|i: int|
            0 <= i < n && changes::line_change(#[trigger] lines[i]) == Some(c),
        changes::changes_upto(lines, n).len() == order::counted(
            |i: int| changes::line_change(lines[i]) is Some,
            n,
        ),
    decreases n,
{
    if n > 0 {
        let last = n - 1;
        lemma_listed_changes(lines, (n - 1) as nat, c);
        let rest = changes::changes_upto(lines, (n - 1) as nat);
        if let Some(x) = changes::line_change(lines[last]) {
            model::lemma_pushed(rest, x, c);
        }
    }
}

/// A line of two parts, a status and a path: the status begins with the letter of the change, and any
/// letter but those of an addition and a deletion means a modification.
pub proof fn law_status_line(status: Seq<char>, path: Seq<char>)
    requires
        status.len() > 0,
        path.len() > 0,
        !status.contains('\t'),
        !path.contains('\t'),
        !text::white(path.last()),
    ensures
        changes::line_change(status + seq!['\t'] + path) == Some(
            if status[0] == 'A' {
                FileChangeView::Added(path)
            } else if status[0] == 'D' {
                FileChangeView::Deleted(path)
            } else {
                FileChangeView::Modified(path)
            },
        ),
{
    let line = status + seq!['\t'] + path;
    assert(line.last() == path.last());
    assert(text::trimmed_end(line) == line);
    text::lemma_split_whole(status, '\t');
    text::lemma_split_append(status, path, '\t');
    assert(line =~= status.push('\t') + path);
    assert(text::split_on(line, '\t') =~= seq![status, path]);
}

/// A line of three parts, a status and two paths: a rename or a copy leads from the first to the second.
pub proof fn law_rename_line(status: Seq<char>, from: Seq<char>, to: Seq<char>)
    requires
        status.len() > 0,
        to.len() > 0,
        status[0] == 'R' || status[0] == 'C',
        !status.contains('\t'),
        !from.contains('\t'),
        !to.contains('\t'),
        !text::white(to.last()),
    ensures
        changes::line_change(status + seq!['\t'] + from + seq!['\t'] + to) == Some(FileChangeView::Renamed(from, to)),
{
    let head = status + seq!['\t'] + from;
    let line = head + seq!['\t'] + to;
    assert(line.last() == to.last());
    assert(text::trimmed_end(line) == line);
    text::lemma_split_whole(status, '\t');
    text::lemma_split_append(status, from, '\t');
    assert(head =~= status.push('\t') + from);
    text::lemma_split_append(head, to, '\t');
    assert(line =~= head.push('\t') + to);
    assert(text::split_on(line, '\t') =~= seq![status, from, to]);
}
/// Where the two revisions of a changed file are: an added file has no old one and a deleted file no new
/// one; the old one is at `HEAD` under the old path, and the new one in the working tree or, where it is
/// staged, in the index.
pub proof fn law_revisions(path: Seq<char>, old_path: Seq<char>)
    ensures
        changes::old_source(FileChangeView::Added(path)) is None,
        changes::old_source(FileChangeView::Deleted(path)) == Some(SourceView::Blob("HEAD:"@ + path)),
        changes::old_source(FileChangeView::Modified(path)) == Some(SourceView::Blob("HEAD:"@ + path)),
        changes::old_source(FileChangeView::Renamed(old_path, path)) == Some(SourceView::Blob("HEAD:"@ + old_path)),
        forall|scope: ChangeScope| (#[trigger] changes::new_source(FileChangeView::Deleted(path), scope)) is None,
        forall|c: FileChangeView|
            c == FileChangeView::Added(path) || c == FileChangeView::Modified(path) || c == FileChangeView::Renamed(
                old_path,
                path,
            ) ==> (#[trigger] changes::new_source(c, ChangeScope::Working)) == Some(SourceView::WorkingFile(path)),
        forall|c: FileChangeView|
            c == FileChangeView::Added(path) || c == FileChangeView::Modified(path) || c == FileChangeView::Renamed(
                old_path,
                path,
            ) ==> (#[trigger] changes::new_source(c, ChangeScope::Staged)) == Some(SourceView::Blob(":"@ + path)),
{
}

/// Changes are listed with their status and with renames found, against `HEAD`; those that are staged
/// are told from all others by one argument more.
pub proof fn law_diff_arguments()
    ensures
        changes::diff_arguments(ChangeScope::Working) == seq!["diff"@, "--name-status"@, "-M"@].push("HEAD"@),
        changes::diff_arguments(ChangeScope::Staged) == seq!["diff"@, "--name-status"@, "-M"@].push("--cached"@).push(
            "HEAD"@,
        ),
{
    assert(changes::diff_arguments(ChangeScope::Working) =~= seq!["diff"@, "--name-status"@, "-M"@].push("HEAD"@));
    assert(changes::diff_arguments(ChangeScope::Staged) =~= seq!["diff"@, "--name-status"@, "-M"@].push(
        "--cached"@,
    ).push("HEAD"@));
}

} // verus!
