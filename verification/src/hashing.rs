//! Content hashes of source files.
use vstd::prelude::*;

use crate::analysis::SourceText;
use crate::ordmap;
use crate::ordmap::OrdMap;
use crate::text;

verus! {

/// The BLAKE3 digest of some bytes, in lower-case hexadecimal digits.
pub uninterp spec fn blake3_hex(bytes: Seq<u8>) -> Seq<char>;

/// `blake3::hash` with `Hash::to_hex`: the BLAKE3 digest of the bytes, in lower-case hexadecimal
/// digits. It depends on the bytes alone; which digest that is is left to the algorithm.
#[verifier::external_body]
fn hash_bytes(bytes: &Vec<u8>) -> (r: String)
    ensures
        r@ == blake3_hex(bytes@),
{
    blake3::hash(bytes.as_slice()).to_hex().to_string()
}

/// The UTF-8 bytes of a text.
pub open spec fn utf8(s: Seq<char>) -> Seq<u8> {
    vstd::utf8::encode_utf8(s)
}

/// The hash of the content of a file.
pub fn content_hash(source: &str) -> (r: String)
    ensures
        r@ == blake3_hex(utf8(source@)),
{
    hash_bytes(&source.as_bytes_vec())
}

/// A file and the hash of its content.
#[derive(Debug, PartialEq, Eq)]
pub struct FileHash {
    pub path: String,
    pub hash: String,
}

/// The hash of the content of each file, in the order of the files.
pub fn hash_files(files: &Vec<SourceText>) -> (r: Vec<FileHash>)
    ensures
        r@.len() == files@.len(),
        forall|i: int|
            0 <= i < files@.len() ==> (#[trigger] r@[i]).path@ == files@[i].path@ && r@[i].hash@ == blake3_hex(
                utf8(files@[i].text@),
            ),
{
    let mut out: Vec<FileHash> = Vec::new();
    let mut i: usize = 0;
    while i < files.len()
        invariant
            i <= files@.len(),
            out@.len() == i,
            forall|j: int|
                0 <= j < i ==> (#[trigger] out@[j]).path@ == files@[j].path@ && out@[j].hash@ == blake3_hex(
                    utf8(files@[j].text@),
                ),
        decreases files@.len() - i,
    {
        out.push(FileHash { path: files[i].path.clone(), hash: content_hash(files[i].text.as_str()) });
        i = i + 1;
    }
    out
}

/// The bytes that stand for the first `n` files of a set: path and text of each, each ended by a
/// zero byte.
pub open spec fn framed(paths: Seq<Seq<char>>, texts: Seq<Seq<char>>, n: nat) -> Seq<u8>
    decreases n,
{
    if n == 0 {
        Seq::empty()
    } else {
        framed(paths, texts, (n - 1) as nat) + utf8(paths[n - 1]).push(0u8) + utf8(texts[n - 1]).push(0u8)
    }
}

/// The bytes that stand for a set of files, in the order of their paths.
pub open spec fn frame(sources: OrdMap<String>) -> Seq<u8> {
    framed(sources.key_seq(), text::views(sources.values@), sources.keys@.len())
}

fn push_text(out: &mut Vec<u8>, s: &str)
    ensures
        final(out)@ == old(out)@ + utf8(s@).push(0u8),
{
    let ghost before = out@;
    let bytes = s.as_bytes_vec();
    let mut i: usize = 0;
    while i < bytes.len()
        invariant
            i <= bytes@.len(),
            bytes@ == utf8(s@),
            out@ == before + bytes@.take(i as int),
        decreases bytes@.len() - i,
    {
        out.push(bytes[i]);
        assert(bytes@.take(i + 1) =~= bytes@.take(i as int).push(bytes@[i as int]));
        i = i + 1;
    }
    assert(bytes@.take(bytes@.len() as int) =~= bytes@);
    out.push(0u8);
    assert(out@ =~= before + utf8(s@).push(0u8));
}

/// A hash of a set of source files.
pub fn sources_hash(sources: &OrdMap<String>) -> (r: String)
    requires
        sources.wf(),
    ensures
        r@ == blake3_hex(frame(*sources)),
{
    let mut bytes: Vec<u8> = Vec::new();
    let ghost paths = sources.key_seq();
    let ghost texts = text::views(sources.values@);
    let mut i: usize = 0;
    while i < sources.keys.len()
        invariant
            i <= sources.keys@.len(),
            sources.keys@.len() == sources.values@.len(),
            paths == sources.key_seq(),
            texts == text::views(sources.values@),
            bytes@ == framed(paths, texts, i as nat),
        decreases sources.keys@.len() - i,
    {
        let ghost before = bytes@;
        assert(paths[i as int] == sources.keys@[i as int]@);
        assert(texts[i as int] == sources.values@[i as int]@);
        push_text(&mut bytes, sources.keys[i].as_str());
        push_text(&mut bytes, sources.values[i].as_str());
        assert(bytes@ =~= before + utf8(paths[i as int]).push(0u8) + utf8(texts[i as int]).push(0u8));
        i = i + 1;
    }
    hash_bytes(&bytes)
}

/// The hash of a set of files depends on which texts stand at which paths, not on the order in
/// which the files were added.
pub proof fn law_sources_hash_order_independent(a: OrdMap<String>, b: OrdMap<String>)
    requires
        a.wf(),
        b.wf(),
        forall|x: Seq<char>| #![trigger a.map().dom().contains(x)] #![trigger b.map().dom().contains(x)]
            a.map().dom().contains(x) == b.map().dom().contains(x),
        forall|x: Seq<char>| #[trigger] a.map().dom().contains(x) ==> a.map()[x]@ == b.map()[x]@,
    ensures
        blake3_hex(frame(a)) == blake3_hex(frame(b)),
{
    ordmap::lemma_same_keys(a, b);
    assert(text::views(a.values@) =~= text::views(b.values@)) by {
        assert forall|i: int| 0 <= i < a.values@.len() implies a.values@[i]@ == b.values@[i]@ by {
            a.lemma_entry(i);
            b.lemma_entry(i);
            assert(a.key_seq()[i] == b.key_seq()[i]);
            assert(a.map().dom().contains(a.keys@[i]@));
        }
    }
}
proof fn lemma_framed_prefix(
    p: Seq<Seq<char>>,
    t: Seq<Seq<char>>,
    q: Seq<Seq<char>>,
    u: Seq<Seq<char>>,
    n: nat,
)
    requires
        n <= p.len(),
        n <= q.len(),
        n <= t.len(),
        n <= u.len(),
        forall|i: int| 0 <= i < n ==> p[i] == q[i] && t[i] == u[i],
    ensures
        framed(p, t, n) == framed(q, u, n),
    decreases n,
{
    if n > 0 {
        lemma_framed_prefix(p, t, q, u, (n - 1) as nat);
    }
}

/// A file more puts its path and its text behind the bytes of the others, each ended by a zero byte.
pub proof fn law_framed(paths: Seq<Seq<char>>, texts: Seq<Seq<char>>, path: Seq<char>, text: Seq<char>)
    requires
        paths.len() == texts.len(),
    ensures
        framed(paths.push(path), texts.push(text), paths.len() + 1) == framed(paths, texts, paths.len()) + utf8(path)
            + seq![0u8] + utf8(text) + seq![0u8],
        framed(paths, texts, 0) == Seq::<u8>::empty(),
{
    let n = paths.len();
    lemma_framed_prefix(paths.push(path), texts.push(text), paths, texts, n);
    let base = framed(paths, texts, n);
    assert(base + utf8(path).push(0u8) + utf8(text).push(0u8) =~= base + utf8(path) + seq![0u8] + utf8(text) + seq![0u8]);
}

} // verus!
