//! Precise resolution: from a call site to the node that a SCIP index says it names.
//!
//! Two coordinate systems meet here. Syntax spans carry byte columns; SCIP positions carry UTF-16
//! code-unit columns. [`utf16_offset`] converts the former to the latter. [`SiteResolver`] maps
//! the target found there back onto a graph node by file, definition line and symbol name, and
//! falls back to the name alone where the file defines that name once.
use vstd::prelude::*;

use crate::analysis::{FileEntry, RawSymbol, SourceText};
use crate::code_plane;
use crate::model;
use crate::model::Uid;
use crate::text;

verus! {

// ----------------------------------------------------------------------------------------------
// Columns
// ----------------------------------------------------------------------------------------------

/// The number of bytes of `c` in UTF-8.
pub open spec fn utf8_width(c: char) -> int {
    let u = c as u32;
    if u < 0x80 {
        1
    } else if u < 0x800 {
        2
    } else if u < 0x10000 {
        3
    } else {
        4
    }
}

/// The number of code units of `c` in UTF-16.
pub open spec fn utf16_width(c: char) -> int {
    if (c as u32) < 0x10000 {
        1
    } else {
        2
    }
}

/// The UTF-16 code units of the characters from `i` on that end within the next `bytes` bytes.
pub open spec fn utf16_units(s: Seq<char>, i: int, bytes: int) -> int
    decreases s.len() - i,
{
    if i >= s.len() || bytes < utf8_width(s[i]) {
        0
    } else {
        utf16_width(s[i]) + utf16_units(s, i + 1, bytes - utf8_width(s[i]))
    }
}

/// A number of code units as a column: at most the largest column.
pub open spec fn as_column(units: int) -> u32 {
    if units > u32::MAX {
        u32::MAX
    } else {
        units as u32
    }
}

/// The UTF-16 length of a text.
pub open spec fn utf16_len(s: Seq<char>) -> int
    decreases s.len(),
{
    if s.len() == 0 {
        0
    } else {
        utf16_len(s.drop_last()) + utf16_width(s.last())
    }
}

/// The UTF-8 length of a text.
pub open spec fn utf8_len(s: Seq<char>) -> int
    decreases s.len(),
{
    if s.len() == 0 {
        0
    } else {
        utf8_len(s.drop_last()) + utf8_width(s.last())
    }
}

/// The converted column is the UTF-16 length of the longest prefix that fits into the byte
/// column: a column past the end counts the whole line, and one inside a character counts the
/// characters before it.
pub proof fn law_utf16_longest_prefix(s: Seq<char>, bytes: int) -> (n: int)
    requires
        0 <= bytes,
    ensures
        0 <= n <= s.len(),
        utf8_len(s.take(n)) <= bytes,
        n < s.len() ==> utf8_len(s.take(n + 1)) > bytes,
        utf16_units(s, 0, bytes) == utf16_len(s.take(n)),
{
    assert(s.take(0).len() == 0);
    lemma_units_from(s, 0, bytes)
}

proof fn lemma_units_from(s: Seq<char>, i: int, bytes: int) -> (n: int)
    requires
        0 <= i <= s.len(),
        0 <= bytes,
    ensures
        i <= n <= s.len(),
        utf8_len(s.take(n)) <= utf8_len(s.take(i)) + bytes,
        n < s.len() ==> utf8_len(s.take(n + 1)) > utf8_len(s.take(i)) + bytes,
        utf16_len(s.take(i)) + utf16_units(s, i, bytes) == utf16_len(s.take(n)),
    decreases s.len() - i,
{
    if i < s.len() {
        assert(s.take(i + 1).drop_last() == s.take(i));
        if bytes >= utf8_width(s[i]) {
            lemma_units_from(s, i + 1, bytes - utf8_width(s[i]))
        } else {
            i
        }
    } else {
        i
    }
}

/// On a line of ASCII characters the two columns coincide up to the end of the line.
pub proof fn law_utf16_ascii_identity(s: Seq<char>, i: int, bytes: int)
    requires
        0 <= i <= s.len(),
        0 <= bytes,
        forall|k: int| 0 <= k < s.len() ==> (#[trigger] s[k] as u32) < 0x80,
    ensures
        utf16_units(s, i, bytes) == (if bytes < s.len() - i { bytes } else { s.len() - i }),
    decreases s.len() - i,
{
    if i < s.len() && bytes >= 1 {
        law_utf16_ascii_identity(s, i + 1, bytes - 1);
    }
}

/// The number of UTF-16 code units of `line_text` before the byte column `byte_col`. A column past
/// the end of the line counts the whole line; one inside a character counts what precedes it.
pub fn utf16_offset(line_text: &str, byte_col: usize) -> (r: u32)
    ensures
        r == as_column(utf16_units(line_text@, 0, byte_col as int)),
{
    let v = text::chars_of(line_text);
    let mut i: usize = 0;
    let mut left: usize = byte_col;
    let mut units: u32 = 0;
    let ghost mut exact: int = 0;
    while i < v.len()
        invariant
            v@ == line_text@,
            i <= v@.len(),
            0 <= exact,
            units == as_column(exact),
            utf16_units(line_text@, 0, byte_col as int) == exact + utf16_units(
                line_text@,
                i as int,
                left as int,
            ),
        decreases v@.len() - i,
    {
        let u: u32 = v[i] as u32;
        let w8: usize = if u < 0x80 {
            1
        } else if u < 0x800 {
            2
        } else if u < 0x10000 {
            3
        } else {
            4
        };
        if left < w8 {
            return units;
        }
        let w16: u32 = if u < 0x10000 {
            1
        } else {
            2
        };
        units = units.saturating_add(w16);
        proof {
            exact = exact + utf16_width(v@[i as int]);
        }
        left = left - w8;
        i = i + 1;
    }
    units
}

/// A position in a file as SCIP counts: lines from 0, columns in UTF-16 code units from 0.
#[derive(Clone, Copy, Debug, PartialEq, Eq, Structural)]
pub struct Position {
    pub line: u32,
    pub character: u32,
}

/// The SCIP position of a byte column on a line with the text `line`.
pub open spec fn position_of(line: Seq<char>, line0: u32, byte_col: int) -> Position {
    Position { line: line0, character: as_column(utf16_units(line, 0, byte_col)) }
}

/// The SCIP position of the byte column `byte_col` on line `line0`, whose text is `line_text`.
pub fn scip_position(line_text: &str, line0: u32, byte_col: usize) -> (r: Position)
    ensures
        r == position_of(line_text@, line0, byte_col as int),
{
    Position { line: line0, character: utf16_offset(line_text, byte_col) }
}

/// The line `n` of a text (from 0): what stands between two line feeds, without a carriage return
/// at its end.
pub open spec fn line_at(s: Seq<char>, n: int) -> Option<Seq<char>> {
    let pieces = text::split_on(s, '\n');
    if 0 <= n < pieces.len() {
        Some(text::without_cr(pieces[n]))
    } else {
        None
    }
}

/// The line `line0` of `source` (from 0), without its line end.
pub fn nth_line(source: &str, line0: u32) -> (r: Option<String>)
    ensures
        text::opt_view(r) == line_at(source@, line0 as int),
{
    let pieces = text::split_char(source, '\n');
    let n: usize = line0 as usize;
    if n >= pieces.len() {
        return None;
    }
    assert(text::views(pieces@)[n as int] == pieces@[n as int]@);
    let v = text::chars_of(pieces[n].as_str());
    if v.len() > 0 && v[v.len() - 1] == '\r' {
        let line = text::slice_text(&v, 0, v.len() - 1);
        assert(line@ =~= text::without_cr(v@));
        Some(line)
    } else {
        Some(pieces[n].clone())
    }
}

// ----------------------------------------------------------------------------------------------
// Monikers
// ----------------------------------------------------------------------------------------------

/// Whether the Unicode `Alphabetic` property holds of `c`.
pub uninterp spec fn alphabetic(c: char) -> bool;

/// `char::is_alphabetic` of the standard library: whether the Unicode `Alphabetic` property holds
/// of the character, which it does of every ASCII letter. Which other characters these are is left to
/// the Unicode tables.
pub assume_specification[ char::is_alphabetic ](c: char) -> (r: bool)
    ensures
        r == alphabetic(c),
        ('a' <= c <= 'z' || 'A' <= c <= 'Z') ==> r,
;

/// Whether an identifier can start with `c`.
pub open spec fn ident_start(c: char) -> bool {
    c == '_' || c == '$' || alphabetic(c)
}

/// Whether an identifier can start with `c`.
pub fn is_ident_start(c: char) -> (r: bool)
    ensures
        r == ident_start(c),
{
    c == '_' || c == '$' || c.is_alphabetic()
}

/// What follows the last `/`, `#` or blank of `s`.
pub open spec fn last_descriptor(s: Seq<char>) -> Seq<char>
    decreases s.len(),
{
    if s.len() == 0 || s.last() == '/' || s.last() == '#' || s.last() == ' ' {
        Seq::empty()
    } else {
        last_descriptor(s.drop_last()).push(s.last())
    }
}

/// What the last descriptor of `s` names: the text between the last two backticks where `s` ends
/// with one, else what follows the last `/`, `#` or blank, past the bracket groups that it may
/// start with. Nothing where that is no identifier.
pub open spec fn descriptor_name(s: Seq<char>) -> Option<Seq<char>> {
    let t = text::trimmed_end(s);
    if t.len() > 0 && t.last() == '`' {
        match text::last_position(t.drop_last(), '`') {
            Some(open) => if open + 1 < t.len() - 1 {
                Some(t.subrange(open + 1, t.len() - 1))
            } else {
                None
            },
            None => None,
        }
    } else {
        let raw = last_descriptor(t);
        let name = if raw.len() > 0 && raw[0] == '[' {
            text::after_last(raw, ']')
        } else {
            raw
        };
        if name.len() > 0 && ident_start(name[0]) {
            Some(name)
        } else {
            None
        }
    }
}

proof fn lemma_last_descriptor(s: Seq<char>, start: int)
    requires
        0 <= start <= s.len(),
        forall|i: int| start <= i < s.len() ==> s[i] != '/' && s[i] != '#' && s[i] != ' ',
        start > 0 ==> s[start - 1] == '/' || s[start - 1] == '#' || s[start - 1] == ' ',
    ensures
        last_descriptor(s) == s.skip(start),
    decreases s.len(),
{
    if s.len() == 0 || s.len() == start {
        assert(s.skip(start) =~= Seq::<char>::empty());
    } else {
        lemma_last_descriptor(s.drop_last(), start);
        assert(s.drop_last().skip(start).push(s.last()) =~= s.skip(start));
    }
}

/// The identifier of the last descriptor in `s`.
pub fn last_descriptor_ident(s: &str) -> (r: Option<String>)
    ensures
        text::opt_view(r) == descriptor_name(s@),
{
    let t = text::trim_end(s);
    let v = text::chars_of(t.as_str());
    let n: usize = v.len();
    if n > 0 && v[n - 1] == '`' {
        let inner = text::slice_text(&v, 0, n - 1);
        let iv = text::chars_of(inner.as_str());
        assert(iv@ =~= t@.drop_last());
        return match text::rfind(&iv, '`') {
            Some(open) => if open + 1 < n - 1 {
                Some(text::slice_text(&v, open + 1, n - 1))
            } else {
                None
            },
            None => None,
        };
    }
    let mut start: usize = n;
    while start > 0 && v[start - 1] != '/' && v[start - 1] != '#' && v[start - 1] != ' '
        invariant
            n == v@.len(),
            start <= n,
            forall|i: int| start <= i < n ==> v@[i] != '/' && v@[i] != '#' && v@[i] != ' ',
        decreases start,
    {
        start = start - 1;
    }
    proof {
        lemma_last_descriptor(v@, start as int);
    }
    let raw = text::slice_text(&v, start, n);
    assert(raw@ =~= last_descriptor(t@));
    let rv = text::chars_of(raw.as_str());
    let name = if rv.len() > 0 && rv[0] == '[' {
        text::after_last_of(raw.as_str(), ']')
    } else {
        raw
    };
    let nv = text::chars_of(name.as_str());
    if nv.len() > 0 && is_ident_start(nv[0]) {
        Some(name)
    } else {
        None
    }
}

/// The symbol that a moniker names: the descriptor before its last `(`, or before its last `#`.
/// A parameter, a module and any other shape name none.
pub open spec fn moniker_name(moniker: Seq<char>) -> Option<Seq<char>> {
    let t = text::trimmed_end_char(moniker, '.');
    match text::last_position(t, '(') {
        Some(paren) => {
            let before = t.take(paren);
            if before.len() > 0 && before.last() != '.' {
                descriptor_name(before)
            } else {
                None
            }
        },
        None => match text::last_position(t, '#') {
            Some(hash) => descriptor_name(t.take(hash)),
            None => None,
        },
    }
}

/// The trailing symbol name of a SCIP moniker, if it has one.
pub fn symbol_name_from_moniker(moniker: &str) -> (r: Option<String>)
    ensures
        text::opt_view(r) == moniker_name(moniker@),
{
    let t = text::trim_end_char(moniker, '.');
    let v = text::chars_of(t.as_str());
    match text::rfind(&v, '(') {
        Some(paren) => {
            let before = text::slice_text(&v, 0, paren);
            assert(before@ =~= t@.take(paren as int));
            if paren > 0 && v[paren - 1] != '.' {
                last_descriptor_ident(before.as_str())
            } else {
                None
            }
        },
        None => match text::rfind(&v, '#') {
            Some(hash) => {
                let before = text::slice_text(&v, 0, hash);
                assert(before@ =~= t@.take(hash as int));
                last_descriptor_ident(before.as_str())
            },
            None => None,
        },
    }
}

/// The first position at or after `i` that is not white space.
pub open spec fn word_start(s: Seq<char>, i: int) -> int
    decreases s.len() - i,
{
    if i < s.len() && text::white(s[i]) {
        word_start(s, i + 1)
    } else {
        i
    }
}

/// The first position at or after `i` that is white space.
pub open spec fn word_end(s: Seq<char>, i: int) -> int
    decreases s.len() - i,
{
    if i < s.len() && !text::white(s[i]) {
        word_end(s, i + 1)
    } else {
        i
    }
}

/// Where the word that follows `skipped` others starts.
pub open spec fn nth_word_start(s: Seq<char>, skipped: nat) -> int
    decreases skipped,
{
    if skipped == 0 {
        word_start(s, 0)
    } else {
        word_start(s, word_end(s, nth_word_start(s, (skipped - 1) as nat)))
    }
}

/// The third word of a moniker: the name of the package.
pub open spec fn moniker_package(moniker: Seq<char>) -> Option<Seq<char>> {
    let start = nth_word_start(moniker, 2);
    if start < moniker.len() {
        Some(moniker.subrange(start, word_end(moniker, start)))
    } else {
        None
    }
}

fn find_word_start(v: &Vec<char>, from: usize) -> (r: usize)
    requires
        from <= v@.len(),
    ensures
        r == word_start(v@, from as int),
        from <= r <= v@.len(),
{
    let mut i: usize = from;
    while i < v.len() && text::is_white(v[i])
        invariant
            from <= i <= v@.len(),
            word_start(v@, from as int) == word_start(v@, i as int),
        decreases v@.len() - i,
    {
        i = i + 1;
    }
    i
}

fn find_word_end(v: &Vec<char>, from: usize) -> (r: usize)
    requires
        from <= v@.len(),
    ensures
        r == word_end(v@, from as int),
        from <= r <= v@.len(),
{
    let mut i: usize = from;
    while i < v.len() && !text::is_white(v[i])
        invariant
            from <= i <= v@.len(),
            word_end(v@, from as int) == word_end(v@, i as int),
        decreases v@.len() - i,
    {
        i = i + 1;
    }
    i
}

/// The name of the package that an external moniker carries.
pub fn package_from_moniker(moniker: &str) -> (r: Option<String>)
    ensures
        text::opt_view(r) == moniker_package(moniker@),
{
    let v = text::chars_of(moniker);
    let a = find_word_start(&v, 0);
    let b = find_word_end(&v, a);
    let c = find_word_start(&v, b);
    let d = find_word_end(&v, c);
    let e = find_word_start(&v, d);
    let f = find_word_end(&v, e);
    proof {
        reveal_with_fuel(nth_word_start, 3);
    }
    if e < v.len() {
        Some(text::slice_text(&v, e, f))
    } else {
        None
    }
}

// ----------------------------------------------------------------------------------------------
// Symbol indices
// ----------------------------------------------------------------------------------------------

/// The node of the symbol `name` declared on line `line` of `file`.
#[derive(Debug, PartialEq, Eq)]
pub struct LocEntry {
    pub file: String,
    pub line: u32,
    pub name: String,
    pub uid: Uid,
}

/// The node of the symbol `name` of `file`; none where several distinct symbols share the name.
#[derive(Debug, PartialEq, Eq)]
pub struct NameEntry {
    pub file: String,
    pub name: String,
    pub uid: Option<Uid>,
}

/// The module node of `file`.
#[derive(Debug, PartialEq, Eq)]
pub struct ModuleEntry {
    pub file: String,
    pub uid: Uid,
}

/// The value of a [`LocEntry`].
#[verifier::ext_equal]
pub struct LocView {
    pub file: Seq<char>,
    pub line: u32,
    pub name: Seq<char>,
    pub uid: Seq<char>,
}

/// The value of a [`NameEntry`].
#[verifier::ext_equal]
pub struct NameView {
    pub file: Seq<char>,
    pub name: Seq<char>,
    pub uid: Option<Seq<char>>,
}

/// The value of a [`ModuleEntry`].
#[verifier::ext_equal]
pub struct ModuleView {
    pub file: Seq<char>,
    pub uid: Seq<char>,
}

impl View for LocEntry {
    type V = LocView;

    open spec fn view(&self) -> LocView {
        LocView { file: self.file@, line: self.line, name: self.name@, uid: self.uid@ }
    }
}

impl View for NameEntry {
    type V = NameView;

    open spec fn view(&self) -> NameView {
        NameView { file: self.file@, name: self.name@, uid: opt_uid_view(self.uid) }
    }
}

impl View for ModuleEntry {
    type V = ModuleView;

    open spec fn view(&self) -> ModuleView {
        ModuleView { file: self.file@, uid: self.uid@ }
    }
}

/// The view of an optional identifier.
pub open spec fn opt_uid_view(u: Option<Uid>) -> Option<Seq<char>> {
    match u {
        Some(x) => Some(x@),
        None => None,
    }
}

/// The tables that a definition is looked up in.
#[derive(Debug, PartialEq, Eq)]
pub struct SymbolIndices {
    pub nodes_by_loc: Vec<LocEntry>,
    pub by_file_name: Vec<NameEntry>,
    pub module_by_file: Vec<ModuleEntry>,
}

/// The value of the tables.
#[verifier::ext_equal]
pub struct IndicesView {
    pub locs: Seq<LocView>,
    pub names: Seq<NameView>,
    pub modules: Seq<ModuleView>,
}

impl View for SymbolIndices {
    type V = IndicesView;

    open spec fn view(&self) -> IndicesView {
        IndicesView {
            locs: Seq::new(self.nodes_by_loc@.len(), |i: int| self.nodes_by_loc@[i]@),
            names: Seq::new(self.by_file_name@.len(), |i: int| self.by_file_name@[i]@),
            modules: Seq::new(self.module_by_file@.len(), |i: int| self.module_by_file@[i]@),
        }
    }
}

/// The first entry at or after `from` for a location.
pub open spec fn loc_from(locs: Seq<LocView>, file: Seq<char>, line: int, name: Seq<char>, from: int) -> Option<
    Seq<char>,
>
    decreases locs.len() - from,
{
    if from >= locs.len() {
        None
    } else if locs[from].file == file && locs[from].line == line && locs[from].name == name {
        Some(locs[from].uid)
    } else {
        loc_from(locs, file, line, name, from + 1)
    }
}

/// The position of the first entry at or after `from` for a name, or -1.
pub open spec fn name_pos(names: Seq<NameView>, file: Seq<char>, name: Seq<char>, from: int) -> int
    decreases names.len() - from,
{
    if from >= names.len() {
        -1
    } else if names[from].file == file && names[from].name == name {
        from
    } else {
        name_pos(names, file, name, from + 1)
    }
}

/// The first module entry at or after `from` for a file.
pub open spec fn module_from(modules: Seq<ModuleView>, file: Seq<char>, from: int) -> Option<Seq<char>>
    decreases modules.len() - from,
{
    if from >= modules.len() {
        None
    } else if modules[from].file == file {
        Some(modules[from].uid)
    } else {
        module_from(modules, file, from + 1)
    }
}

impl IndicesView {
    /// The tables with one symbol more: the first symbol of a location keeps it, and a name that
    /// a distinct symbol already has becomes ambiguous for good.
    pub open spec fn with_symbol(self, file: Seq<char>, sym: RawSymbol, uid: Seq<char>) -> IndicesView {
        let at = name_pos(self.names, file, sym.name@, 0);
        IndicesView {
            locs: if loc_from(self.locs, file, sym.span.start_line as int, sym.name@, 0) is Some {
                self.locs
            } else {
                self.locs.push(LocView { file, line: sym.span.start_line, name: sym.name@, uid })
            },
            names: if at < 0 {
                self.names.push(NameView { file, name: sym.name@, uid: Some(uid) })
            } else if self.names[at].uid == Some(uid) {
                self.names
            } else {
                self.names.update(at, NameView { file, name: sym.name@, uid: None })
            },
            modules: self.modules,
        }
    }

    /// The tables with the first `n` symbols of a file, whose identifiers carry the tag `lang`.
    pub open spec fn with_symbols(
        self,
        lang: Seq<char>,
        repo: Seq<char>,
        file: Seq<char>,
        syms: Seq<RawSymbol>,
        n: nat,
    ) -> IndicesView
        decreases n,
    {
        if n == 0 {
            self
        } else {
            let k = (n - 1) as nat;
            self.with_symbols(lang, repo, file, syms, k).with_symbol(
                file,
                syms[k as int],
                model::uid_text(lang, repo, file, syms[k as int].fqn@, ""@),
            )
        }
    }

    /// The tables with a module entry more.
    pub open spec fn with_module(self, lang: Seq<char>, repo: Seq<char>, file: Seq<char>) -> IndicesView {
        IndicesView {
            modules: self.modules.push(
                ModuleView { file, uid: model::uid_text(lang, repo, file, "<module>"@, ""@) },
            ),
            ..self
        }
    }
}

/// The tables of the first `n` files.
pub open spec fn indices_upto(lang: Seq<char>, repo: Seq<char>, files: Seq<FileEntry>, n: nat) -> IndicesView
    decreases n,
{
    if n == 0 {
        IndicesView { locs: Seq::empty(), names: Seq::empty(), modules: Seq::empty() }
    } else {
        let k = (n - 1) as nat;
        let f = files[k as int];
        indices_upto(lang, repo, files, k).with_module(lang, repo, f.path@).with_symbols(
            lang,
            repo,
            f.path@,
            f.file.symbols@,
            f.file.symbols@.len(),
        )
    }
}

/// The tables of a set of files.
pub open spec fn indices_of(lang: Seq<char>, repo: Seq<char>, files: Seq<FileEntry>) -> IndicesView {
    indices_upto(lang, repo, files, files.len())
}

impl SymbolIndices {
    fn find_loc(&self, file: &str, line: u64, name: &str) -> (r: Option<usize>)
        ensures
            match r {
                Some(i) => i < self.nodes_by_loc@.len() && loc_from(self@.locs, file@, line as int, name@, 0)
                    == Some(self.nodes_by_loc@[i as int].uid@),
                None => loc_from(self@.locs, file@, line as int, name@, 0) is None,
            },
    {
        let mut i: usize = 0;
        while i < self.nodes_by_loc.len()
            invariant
                i <= self.nodes_by_loc@.len(),
                loc_from(self@.locs, file@, line as int, name@, 0) == loc_from(
                    self@.locs,
                    file@,
                    line as int,
                    name@,
                    i as int,
                ),
            decreases self.nodes_by_loc@.len() - i,
        {
            let e = &self.nodes_by_loc[i];
            assert(self@.locs[i as int] == e@);
            if e.line as u64 == line && text::same(e.file.as_str(), file) && text::same(e.name.as_str(), name) {
                return Some(i);
            }
            i = i + 1;
        }
        None
    }

    fn find_name(&self, file: &str, name: &str) -> (r: Option<usize>)
        ensures
            match r {
                Some(i) => i < self.by_file_name@.len() && name_pos(self@.names, file@, name@, 0) == i,
                None => name_pos(self@.names, file@, name@, 0) < 0,
            },
    {
        let mut i: usize = 0;
        while i < self.by_file_name.len()
            invariant
                i <= self.by_file_name@.len(),
                name_pos(self@.names, file@, name@, 0) == name_pos(self@.names, file@, name@, i as int),
            decreases self.by_file_name@.len() - i,
        {
            let e = &self.by_file_name[i];
            assert(self@.names[i as int] == e@);
            if text::same(e.file.as_str(), file) && text::same(e.name.as_str(), name) {
                return Some(i);
            }
            i = i + 1;
        }
        None
    }

    fn find_module(&self, file: &str) -> (r: Option<usize>)
        ensures
            match r {
                Some(i) => i < self.module_by_file@.len() && module_from(self@.modules, file@, 0) == Some(
                    self.module_by_file@[i as int].uid@,
                ),
                None => module_from(self@.modules, file@, 0) is None,
            },
    {
        let mut i: usize = 0;
        while i < self.module_by_file.len()
            invariant
                i <= self.module_by_file@.len(),
                module_from(self@.modules, file@, 0) == module_from(self@.modules, file@, i as int),
            decreases self.module_by_file@.len() - i,
        {
            assert(self@.modules[i as int] == self.module_by_file@[i as int]@);
            if text::same(self.module_by_file[i].file.as_str(), file) {
                return Some(i);
            }
            i = i + 1;
        }
        None
    }

    fn add_symbol(&mut self, file: &str, sym: &RawSymbol, uid: Uid)
        ensures
            final(self)@ == old(self)@.with_symbol(file@, *sym, uid@),
    {
        let ghost before = self@;
        let line: u64 = sym.span.start_line as u64;
        let at_loc = self.find_loc(file, line, sym.name.as_str());
        let at_name = self.find_name(file, sym.name.as_str());
        if at_loc.is_none() {
            self.nodes_by_loc.push(
                LocEntry {
                    file: file.to_owned(),
                    line: sym.span.start_line,
                    name: sym.name.clone(),
                    uid: uid.clone(),
                },
            );
        }
        match at_name {
            None => {
                self.by_file_name.push(
                    NameEntry { file: file.to_owned(), name: sym.name.clone(), uid: Some(uid.clone()) },
                );
            },
            Some(i) => {
                let same = match &self.by_file_name[i].uid {
                    Some(u) => u.same(&uid),
                    None => false,
                };
                assert(before.names[i as int].uid == opt_uid_view(self.by_file_name@[i as int].uid));
                if !same {
                    self.by_file_name.set(
                        i,
                        NameEntry { file: file.to_owned(), name: sym.name.clone(), uid: None },
                    );
                }
            },
        }
        assert(self@ =~= before.with_symbol(file@, *sym, uid@));
    }
}

/// The tables of a set of TypeScript files.
pub fn build_symbol_indices(repo_name: &str, analyzed: &Vec<FileEntry>) -> (r: SymbolIndices)
    ensures
        r@ == indices_of("ts"@, repo_name@, analyzed@),
{
    build_tagged_indices("ts", repo_name, analyzed)
}

/// The tables of a set of files whose identifiers carry the tag `lang`.
pub fn build_tagged_indices(lang: &str, repo_name: &str, analyzed: &Vec<FileEntry>) -> (r: SymbolIndices)
    ensures
        r@ == indices_of(lang@, repo_name@, analyzed@),
{
    let mut ix = SymbolIndices {
        nodes_by_loc: Vec::new(),
        by_file_name: Vec::new(),
        module_by_file: Vec::new(),
    };
    assert(ix@ =~= indices_upto(lang@, repo_name@, analyzed@, 0));
    let mut i: usize = 0;
    while i < analyzed.len()
        invariant
            i <= analyzed@.len(),
            ix@ == indices_upto(lang@, repo_name@, analyzed@, i as nat),
        decreases analyzed@.len() - i,
    {
        let entry = &analyzed[i];
        let ghost before = ix@;
        ix.module_by_file.push(
            ModuleEntry {
                file: entry.path.clone(),
                uid: Uid::new(lang, repo_name, entry.path.as_str(), "<module>", ""),
            },
        );
        assert(ix@ =~= before.with_module(lang@, repo_name@, entry.path@));
        let ghost base = ix@;
        let mut j: usize = 0;
        while j < entry.file.symbols.len()
            invariant
                j <= entry.file.symbols@.len(),
                ix@ == base.with_symbols(lang@, repo_name@, entry.path@, entry.file.symbols@, j as nat),
            decreases entry.file.symbols@.len() - j,
        {
            let sym = &entry.file.symbols[j];
            let uid = Uid::new(lang, repo_name, entry.path.as_str(), sym.fqn.as_str(), "");
            ix.add_symbol(entry.path.as_str(), sym, uid);
            j = j + 1;
        }
        i = i + 1;
    }
    ix
}

/// The node of the definition of `name` on line `line` of `file`: the symbol declared there, else
/// the only symbol of that name in the file.
pub open spec fn named_def(ix: IndicesView, file: Seq<char>, line: int, name: Seq<char>) -> Option<Seq<char>> {
    match loc_from(ix.locs, file, line, name, 0) {
        Some(u) => Some(u),
        None => {
            let at = name_pos(ix.names, file, name, 0);
            if at < 0 {
                None
            } else {
                ix.names[at].uid
            }
        },
    }
}

/// The node of the definition of `name` on line `def_line_1based` of `def_file`.
pub fn match_named_def(ix: &SymbolIndices, def_file: &str, def_line_1based: u64, name: &str) -> (r: Option<Uid>)
    ensures
        opt_uid_view(r) == named_def(ix@, def_file@, def_line_1based as int, name@),
{
    match ix.find_loc(def_file, def_line_1based, name) {
        Some(i) => Some(ix.nodes_by_loc[i].uid.clone()),
        None => match ix.find_name(def_file, name) {
            Some(i) => {
                assert(ix@.names[i as int] == ix.by_file_name@[i as int]@);
                match &ix.by_file_name[i].uid {
                    Some(u) => Some(u.clone()),
                    None => None,
                }
            },
            None => None,
        },
    }
}

// ----------------------------------------------------------------------------------------------
// Sites
// ----------------------------------------------------------------------------------------------

/// What a SCIP index says of the symbol at a position.
#[derive(Debug, PartialEq, Eq)]
pub struct ResolvedTarget {
    pub moniker: String,
    pub is_external: bool,
    pub def_file: Option<String>,
    pub def_position: Option<Position>,
}

/// One answer of a SCIP index: the target of the symbol at a position of a file.
#[derive(Debug, PartialEq, Eq)]
pub struct ScipEntry {
    pub file: String,
    pub position: Position,
    pub target: ResolvedTarget,
}

/// The answers of a SCIP index at the positions that matter. A position without an entry is not
/// covered by the index.
#[derive(Debug, PartialEq, Eq)]
pub struct ScipTable {
    pub entries: Vec<ScipEntry>,
}

/// The first answer at or after entry `from` for a position.
pub open spec fn answer_from(entries: Seq<ScipEntry>, file: Seq<char>, pos: Position, from: int) -> Option<
    ResolvedTarget,
>
    decreases entries.len() - from,
{
    if from >= entries.len() {
        None
    } else if entries[from].file@ == file && entries[from].position == pos {
        Some(entries[from].target)
    } else {
        answer_from(entries, file, pos, from + 1)
    }
}

impl ScipTable {
    /// What the index says of the symbol at `pos` of `file`.
    pub fn resolve_at(&self, file: &str, pos: Position) -> (r: Option<&ResolvedTarget>)
        ensures
            match r {
                Some(t) => answer_from(self.entries@, file@, pos, 0) == Some(*t),
                None => answer_from(self.entries@, file@, pos, 0) is None,
            },
    {
        let mut i: usize = 0;
        while i < self.entries.len()
            invariant
                i <= self.entries@.len(),
                answer_from(self.entries@, file@, pos, 0) == answer_from(self.entries@, file@, pos, i as int),
            decreases self.entries@.len() - i,
        {
            if self.entries[i].position == pos && text::same(self.entries[i].file.as_str(), file) {
                return Some(&self.entries[i].target);
            }
            i = i + 1;
        }
        None
    }
}

/// What a SCIP target maps to in the graph.
#[derive(Debug, PartialEq, Eq)]
pub enum MappedTarget {
    /// A node of the repository: a symbol or a module.
    Node(Uid),
    /// The package node of a symbol that the repository does not define.
    External(Uid),
}

/// The value of a [`MappedTarget`].
pub enum TargetView {
    Node(Seq<char>),
    External(Seq<char>),
}

impl View for MappedTarget {
    type V = TargetView;

    open spec fn view(&self) -> TargetView {
        match self {
            MappedTarget::Node(u) => TargetView::Node(u@),
            MappedTarget::External(u) => TargetView::External(u@),
        }
    }
}

impl TargetView {
    /// The identifier of the target node.
    pub open spec fn uid(self) -> Seq<char> {
        match self {
            TargetView::Node(u) => u,
            TargetView::External(u) => u,
        }
    }
}

/// The view of an optional target.
pub open spec fn opt_target_view(t: Option<MappedTarget>) -> Option<TargetView> {
    match t {
        Some(x) => Some(x@),
        None => None,
    }
}

impl MappedTarget {
    /// The identifier of the target node.
    pub fn uid(&self) -> (r: &Uid)
        ensures
            r@ == self@.uid(),
    {
        match self {
            MappedTarget::Node(uid) => uid,
            MappedTarget::External(uid) => uid,
        }
    }
}

/// The text of the first source at or after `from` with this path.
pub open spec fn source_from(sources: Seq<SourceText>, path: Seq<char>, from: int) -> Option<Seq<char>>
    decreases sources.len() - from,
{
    if from >= sources.len() {
        None
    } else if sources[from].path@ == path {
        Some(sources[from].text@)
    } else {
        source_from(sources, path, from + 1)
    }
}

/// The text of the source with this path.
pub open spec fn source_of(sources: Seq<SourceText>, path: Seq<char>) -> Option<Seq<char>> {
    source_from(sources, path, 0)
}

/// The position of the first source with this path.
pub fn find_source(sources: &Vec<SourceText>, path: &str) -> (r: Option<usize>)
    ensures
        match r {
            Some(i) => i < sources@.len() && sources@[i as int].path@ == path@ && source_of(sources@, path@) == Some(
                sources@[i as int].text@,
            ),
            None => source_of(sources@, path@) is None,
        },
{
    let mut i: usize = 0;
    while i < sources.len()
        invariant
            i <= sources@.len(),
            source_of(sources@, path@) == source_from(sources@, path@, i as int),
        decreases sources@.len() - i,
    {
        if text::same(sources[i].path.as_str(), path) {
            return Some(i);
        }
        i = i + 1;
    }
    None
}

/// The SCIP position of a site: none where the source or the line is missing.
pub open spec fn site_position(sources: Seq<SourceText>, file: Seq<char>, line0: u32, byte_col: int) -> Option<
    Position,
> {
    match source_of(sources, file) {
        Some(source) => match line_at(source, line0 as int) {
            Some(line) => Some(position_of(line, line0, byte_col)),
            None => None,
        },
        None => None,
    }
}

/// The SCIP position of the byte column `byte_col` on line `line0` (from 0) of `file`.
pub fn position_of_site(sources: &Vec<SourceText>, file: &str, line0: u32, byte_col: usize) -> (r: Option<Position>)
    ensures
        r == site_position(sources@, file@, line0, byte_col as int),
{
    match find_source(sources, file) {
        Some(i) => match nth_line(sources[i].text.as_str(), line0) {
            Some(line) => Some(scip_position(line.as_str(), line0, byte_col)),
            None => None,
        },
        None => None,
    }
}

/// The graph target of a SCIP target: the package node of an external symbol, the node of a named
/// definition, the module node of a definition without a name. None where that node is unknown.
pub open spec fn mapped(ix: IndicesView, t: ResolvedTarget) -> Option<TargetView> {
    if t.is_external {
        match moniker_package(t.moniker@) {
            Some(pkg) => Some(TargetView::External(code_plane::package_uid(pkg))),
            None => None,
        }
    } else {
        match (t.def_file, t.def_position) {
            (Some(file), Some(pos)) => {
                let node = match moniker_name(t.moniker@) {
                    Some(name) => named_def(ix, file@, pos.line + 1, name),
                    None => module_from(ix.modules, file@, 0),
                };
                match node {
                    Some(u) => Some(TargetView::Node(u)),
                    None => None,
                }
            },
            _ => None,
        }
    }
}

/// The graph target of a site.
pub open spec fn site_target(
    scip: Seq<ScipEntry>,
    sources: Seq<SourceText>,
    ix: IndicesView,
    file: Seq<char>,
    line0: u32,
    byte_col: int,
) -> Option<TargetView> {
    match site_position(sources, file, line0, byte_col) {
        Some(pos) => match answer_from(scip, file, pos, 0) {
            Some(t) => mapped(ix, t),
            None => None,
        },
        None => None,
    }
}

/// Resolves sites against the answers of a SCIP index.
pub struct SiteResolver<'a> {
    pub scip: &'a ScipTable,
    pub sources: &'a Vec<SourceText>,
    pub indices: SymbolIndices,
}

impl<'a> SiteResolver<'a> {
    /// The resolver for a set of files.
    pub fn new(
        scip: &'a ScipTable,
        sources: &'a Vec<SourceText>,
        repo_name: &str,
        analyzed: &Vec<FileEntry>,
    ) -> (r: SiteResolver<'a>)
        ensures
            r.scip == scip,
            r.sources == sources,
            r.indices@ == indices_of("ts"@, repo_name@, analyzed@),
    {
        SiteResolver { scip, sources, indices: build_symbol_indices(repo_name, analyzed) }
    }

    /// The target of the site at byte column `byte_col` of line `line0` (from 0) of `file`. None
    /// where the index does not cover it or its target is no node of the graph.
    pub fn resolve_site(&self, file: &str, line0: u32, byte_col: usize) -> (r: Option<MappedTarget>)
        ensures
            opt_target_view(r) == site_target(
                self.scip.entries@,
                self.sources@,
                self.indices@,
                file@,
                line0,
                byte_col as int,
            ),
    {
        match position_of_site(self.sources, file, line0, byte_col) {
            Some(pos) => match self.scip.resolve_at(file, pos) {
                Some(target) => self.map_target(target),
                None => None,
            },
            None => None,
        }
    }

    /// The graph target of a SCIP target.
    pub fn map_target(&self, target: &ResolvedTarget) -> (r: Option<MappedTarget>)
        ensures
            opt_target_view(r) == mapped(self.indices@, *target),
    {
        if target.is_external {
            return match package_from_moniker(target.moniker.as_str()) {
                Some(pkg) => Some(MappedTarget::External(code_plane::uid_package(pkg.as_str()))),
                None => None,
            };
        }
        match (&target.def_file, &target.def_position) {
            (Some(def_file), Some(pos)) => {
                let line: u64 = pos.line as u64 + 1;
                let node = match symbol_name_from_moniker(target.moniker.as_str()) {
                    Some(name) => match_named_def(&self.indices, def_file.as_str(), line, name.as_str()),
                    None => match self.indices.find_module(def_file.as_str()) {
                        Some(i) => Some(self.indices.module_by_file[i].uid.clone()),
                        None => None,
                    },
                };
                match node {
                    Some(u) => Some(MappedTarget::Node(u)),
                    None => None,
                }
            },
            _ => None,
        }
    }
}

} // verus!
