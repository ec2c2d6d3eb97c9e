//! The entries of the lexical index of documents, and how a new index takes the place of the old.
use vstd::prelude::*;

use crate::text;

verus! {

/// The directory of the index.
pub const DOCS_INDEX_DIR: &'static str = "docs.idx";

/// The directory that a new index is built in.
pub const DOCS_INDEX_TMP_DIR: &'static str = "docs.idx.tmp";

/// What the name of a directory begins with that held an index and was set aside.
pub const STALE_DIR_PREFIX: &'static str = "docs.idx.stale-";

/// The memory that the index writer may use, in bytes.
pub const INDEX_WRITER_MEMORY_BUDGET: usize = 15_000_000;

/// Where an entry comes from.
#[derive(Clone, Copy, Debug, PartialEq, Eq, Structural)]
pub enum DocsEntryKind {
    /// A section of a document.
    Section,
    /// A comment on a symbol.
    DocComment,
    /// The description of an operation.
    SpecDescription,
}

/// The name of a kind of entry.
pub open spec fn entry_kind_name(kind: DocsEntryKind) -> Seq<char> {
    match kind {
        DocsEntryKind::Section => "section"@,
        DocsEntryKind::DocComment => "doc_comment"@,
        DocsEntryKind::SpecDescription => "spec_description"@,
    }
}

impl DocsEntryKind {
    /// The name of the kind.
    pub fn as_str(self) -> (r: &'static str)
        ensures
            r@ == entry_kind_name(self),
    {
        match self {
            DocsEntryKind::Section => "section",
            DocsEntryKind::DocComment => "doc_comment",
            DocsEntryKind::SpecDescription => "spec_description",
        }
    }
}

/// An entry of the index. Its identifier is that of the node that it describes.
#[derive(Debug, PartialEq, Eq)]
pub struct DocsIndexEntry {
    pub uid: String,
    pub name: String,
    pub path: String,
    pub anchor: String,
    pub kind: DocsEntryKind,
    pub body: String,
}

/// A field of the index, with its text and whether it is tokenized.
#[derive(Debug, PartialEq, Eq)]
pub struct EntryField {
    pub name: String,
    pub text: String,
    pub tokenized: bool,
}

/// The value of an [`EntryField`].
#[verifier::ext_equal]
pub struct FieldView {
    pub name: Seq<char>,
    pub text: Seq<char>,
    pub tokenized: bool,
}

impl View for EntryField {
    type V = FieldView;

    open spec fn view(&self) -> FieldView {
        FieldView { name: self.name@, text: self.text@, tokenized: self.tokenized }
    }
}

/// The values of a sequence of fields.
pub open spec fn field_views(v: Seq<EntryField>) -> Seq<FieldView> {
    Seq::new(v.len(), |i: int| v[i]@)
}

/// The fields of an entry. What is prose is tokenized, what identifies or labels is not; all are
/// stored.
pub open spec fn fields_of(e: DocsIndexEntry) -> Seq<FieldView> {
    seq![
        FieldView { name: "uid"@, text: e.uid@, tokenized: false },
        FieldView { name: "name"@, text: e.name@, tokenized: true },
        FieldView { name: "path"@, text: e.path@, tokenized: false },
        FieldView { name: "anchor"@, text: e.anchor@, tokenized: false },
        FieldView { name: "kind"@, text: entry_kind_name(e.kind), tokenized: false },
        FieldView { name: "body"@, text: e.body@, tokenized: true },
    ]
}

fn field(name: &str, text: &str, tokenized: bool) -> (r: EntryField)
    ensures
        r@ == (FieldView { name: name@, text: text@, tokenized }),
{
    EntryField { name: name.to_owned(), text: text.to_owned(), tokenized }
}

/// The fields of an entry.
pub fn entry_fields(e: &DocsIndexEntry) -> (r: Vec<EntryField>)
    ensures
        field_views(r@) == fields_of(*e),
{
    let mut out: Vec<EntryField> = Vec::new();
    out.push(field("uid", e.uid.as_str(), false));
    out.push(field("name", e.name.as_str(), true));
    out.push(field("path", e.path.as_str(), false));
    out.push(field("anchor", e.anchor.as_str(), false));
    out.push(field("kind", e.kind.as_str(), false));
    out.push(field("body", e.body.as_str(), true));
    assert(field_views(out@) =~= fields_of(*e));
    out
}

// ----------------------------------------------------------------------------------------------
// Taking the place of the old index
// ----------------------------------------------------------------------------------------------

/// The name under which a process sets an index aside.
pub open spec fn stale_name(process: u32) -> Seq<char> {
    STALE_DIR_PREFIX@ + text::decimal(process as nat)
}

/// The name under which a process sets an index aside.
pub fn stale_dir_name(process: u32) -> (r: String)
    ensures
        r@ == stale_name(process),
{
    let number = text::decimal_of(process as u128);
    text::concat2(STALE_DIR_PREFIX, number.as_str())
}

/// Whether a directory of this name was set aside, by whatever process.
pub fn is_stale_dir(name: &str) -> (r: bool)
    ensures
        r == text::begins(name@, STALE_DIR_PREFIX@),
{
    text::starts_with(name, STALE_DIR_PREFIX)
}

/// A step in putting a new index in the place of the old.
#[derive(Debug, PartialEq, Eq)]
pub enum SwapStep {
    /// Remove a directory; that it is not there is no failure.
    Clear(String),
    /// Rename a directory.
    Rename { from: String, to: String },
}

/// The value of a [`SwapStep`].
pub enum StepView {
    Clear(Seq<char>),
    Rename(Seq<char>, Seq<char>),
}

impl View for SwapStep {
    type V = StepView;

    open spec fn view(&self) -> StepView {
        match self {
            SwapStep::Clear(name) => StepView::Clear(name@),
            SwapStep::Rename { from, to } => StepView::Rename(from@, to@),
        }
    }
}

/// The values of a sequence of steps.
pub open spec fn step_views(v: Seq<SwapStep>) -> Seq<StepView> {
    Seq::new(v.len(), |i: int| v[i]@)
}

/// The steps that put a new index in the place of the old: an old one is set aside in one step and
/// not removed where it stands.
pub open spec fn swap_steps(present: bool, process: u32) -> Seq<StepView> {
    if present {
        seq![
            StepView::Clear(stale_name(process)),
            StepView::Rename(DOCS_INDEX_DIR@, stale_name(process)),
            StepView::Rename(DOCS_INDEX_TMP_DIR@, DOCS_INDEX_DIR@),
        ]
    } else {
        seq![StepView::Rename(DOCS_INDEX_TMP_DIR@, DOCS_INDEX_DIR@)]
    }
}

/// The steps that put a new index in the place of the old, where there is one.
pub fn swap_plan(present: bool, process: u32) -> (r: Vec<SwapStep>)
    ensures
        step_views(r@) == swap_steps(present, process),
{
    let mut out: Vec<SwapStep> = Vec::new();
    if present {
        out.push(SwapStep::Clear(stale_dir_name(process)));
        out.push(SwapStep::Rename { from: DOCS_INDEX_DIR.to_owned(), to: stale_dir_name(process) });
    }
    out.push(SwapStep::Rename { from: DOCS_INDEX_TMP_DIR.to_owned(), to: DOCS_INDEX_DIR.to_owned() });
    assert(step_views(out@) =~= swap_steps(present, process));
    out
}

/// What a process sets aside is known as set aside, and is neither the index nor the directory that
/// a new one is built in: no step removes what a reader may have open.
pub proof fn law_stale_names(process: u32)
    ensures
        text::begins(stale_name(process), STALE_DIR_PREFIX@),
        stale_name(process) != DOCS_INDEX_DIR@,
        stale_name(process) != DOCS_INDEX_TMP_DIR@,
        !text::begins(DOCS_INDEX_DIR@, STALE_DIR_PREFIX@),
        !text::begins(DOCS_INDEX_TMP_DIR@, STALE_DIR_PREFIX@),
{
    reveal_strlit("docs.idx");
    reveal_strlit("docs.idx.tmp");
    reveal_strlit("docs.idx.stale-");
    text::lemma_decimal_nonempty(process as nat);
    let s = stale_name(process);
    let p = STALE_DIR_PREFIX@;
    assert(s.len() > p.len());
    assert(p.len() == 15 && DOCS_INDEX_DIR@.len() == 8);
    assert(s.subrange(0, p.len() as int) =~= p);
    assert(s[9] == 's');
    assert(DOCS_INDEX_TMP_DIR@[9] == 't');
}
/// Whether an entry has a field of this name, text and treatment.
pub open spec fn has_field(e: DocsIndexEntry, name: Seq<char>, text: Seq<char>, tokenized: bool) -> bool {
    fields_of(e).contains(FieldView { name, text, tokenized })
}

/// An entry has a field for each of its parts and no other; its name and its body are tokenized, what
/// identifies or labels it is not.
pub proof fn law_entry_fields(e: DocsIndexEntry)
    ensures
        fields_of(e).len() == 6,
        has_field(e, "uid"@, e.uid@, false),
        has_field(e, "name"@, e.name@, true),
        has_field(e, "path"@, e.path@, false),
        has_field(e, "anchor"@, e.anchor@, false),
        has_field(e, "body"@, e.body@, true),
        e.kind == DocsEntryKind::Section ==> has_field(e, "kind"@, "section"@, false),
        e.kind == DocsEntryKind::DocComment ==> has_field(e, "kind"@, "doc_comment"@, false),
        e.kind == DocsEntryKind::SpecDescription ==> has_field(e, "kind"@, "spec_description"@, false),
{
    let f = fields_of(e);
    assert(f[0] == (FieldView { name: "uid"@, text: e.uid@, tokenized: false }));
    assert(f[1] == (FieldView { name: "name"@, text: e.name@, tokenized: true }));
    assert(f[2] == (FieldView { name: "path"@, text: e.path@, tokenized: false }));
    assert(f[3] == (FieldView { name: "anchor"@, text: e.anchor@, tokenized: false }));
    assert(f[4] == (FieldView { name: "kind"@, text: entry_kind_name(e.kind), tokenized: false }));
    assert(f[5] == (FieldView { name: "body"@, text: e.body@, tokenized: true }));
}

/// A new index ends in the place of the old, the old is out of the way before that, and nothing is
/// removed but what the process set aside earlier.
pub proof fn law_swap(present: bool, process: u32)
    ensures
        ({
            let s = swap_steps(present, process);
            &&& s.len() > 0
            &&& s.last() == StepView::Rename(DOCS_INDEX_TMP_DIR@, DOCS_INDEX_DIR@)
            &&& present ==> s.len() > 1 && s[s.len() - 2] == StepView::Rename(DOCS_INDEX_DIR@, stale_name(process))
            &&& forall|i: int|
                0 <= i < s.len() ==> (#[trigger] s[i] matches StepView::Clear(name) ==> name == stale_name(process)
                    && i < s.len() - 2)
            &&& present ==> s[0] == StepView::Clear(stale_name(process))
        }),
{
}

} // verus!
