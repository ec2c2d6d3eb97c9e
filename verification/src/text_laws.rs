//! What the operations on texts do, told by the texts.
use vstd::prelude::*;

use crate::text;

verus! {

/// Whether a text is white space throughout.
pub open spec fn all_white(s: Seq<char>) -> bool {
    forall|i: int| 0 <= i < s.len() ==> text::white(#[trigger] s[i])
}

/// Whether a text is another with white space before and after it.
pub open spec fn is_padded(s: Seq<char>, a: Seq<char>, t: Seq<char>, b: Seq<char>) -> bool {
    s == a + t + b && all_white(a) && all_white(b)
}

proof fn lemma_trimmed_start(s: Seq<char>) -> (a: Seq<char>)
    ensures
        s == a + text::trimmed_start(s),
        all_white(a),
        text::trimmed_start(s).len() > 0 ==> !text::white(text::trimmed_start(s)[0]),
    decreases s.len(),
{
    if s.len() > 0 && text::white(s[0]) {
        let a = lemma_trimmed_start(s.skip(1));
        let r = seq![s[0]] + a;
        assert(s =~= seq![s[0]] + s.skip(1));
        assert(s =~= seq![s[0]] + (a + text::trimmed_start(s)));
        assert(s =~= r + text::trimmed_start(s));
        assert forall|i: int| 0 <= i < r.len() implies text::white(#[trigger] r[i]) by {
            if i > 0 {
                assert(r[i] == a[i - 1]);
            }
        }
        r
    } else {
        assert(s =~= Seq::<char>::empty() + s);
        Seq::empty()
    }
}

proof fn lemma_trimmed_end(s: Seq<char>) -> (b: Seq<char>)
    ensures
        s == text::trimmed_end(s) + b,
        all_white(b),
        text::trimmed_end(s).len() > 0 ==> !text::white(text::trimmed_end(s).last()),
    decreases s.len(),
{
    if s.len() > 0 && text::white(s.last()) {
        let b = lemma_trimmed_end(s.drop_last());
        let r = b.push(s.last());
        assert(s =~= s.drop_last().push(s.last()));
        assert(s =~= (text::trimmed_end(s) + b).push(s.last()));
        assert(s =~= text::trimmed_end(s) + r);
        r
    } else {
        assert(s =~= s + Seq::<char>::empty());
        Seq::empty()
    }
}

/// Trimming takes white space, all that is at the two ends, and nothing else.
pub proof fn law_trimmed(s: Seq<char>)
    ensures
        exists|a: Seq<char>, b: Seq<char>| #[trigger] is_padded(s, a, text::trimmed(s), b),
        text::trimmed(s).len() > 0 ==> !text::white(text::trimmed(s)[0]) && !text::white(text::trimmed(s).last()),
{
    let a = lemma_trimmed_start(s);
    let t = text::trimmed_start(s);
    let b = lemma_trimmed_end(t);
    let r = text::trimmed(s);
    assert(s =~= a + r + b);
    assert(is_padded(s, a, r, b));
    if r.len() > 0 {
        assert(t[0] == r[0]);
    }
}

/// Trimming the end takes white space, all that is there, and nothing else.
pub proof fn law_trimmed_end(s: Seq<char>)
    ensures
        exists|b: Seq<char>| s == #[trigger] (text::trimmed_end(s) + b) && all_white(b),
        text::trimmed_end(s).len() > 0 ==> !text::white(text::trimmed_end(s).last()),
{
    let b = lemma_trimmed_end(s);
    assert(s == text::trimmed_end(s) + b);
}

/// Trimming a character takes its copies, all that are at the end, and nothing else.
pub proof fn law_trimmed_end_char(s: Seq<char>, c: char)
    ensures
        ({
            let t = text::trimmed_end_char(s, c);
            &&& t.len() <= s.len()
            &&& t == s.take(t.len() as int)
            &&& forall|i: int| t.len() <= i < s.len() ==> #[trigger] s[i] == c
            &&& t.len() > 0 ==> t.last() != c
        }),
    decreases s.len(),
{
    let t = text::trimmed_end_char(s, c);
    if s.len() > 0 && s.last() == c {
        law_trimmed_end_char(s.drop_last(), c);
        assert(t =~= s.take(t.len() as int));
        assert forall|i: int| t.len() <= i < s.len() implies #[trigger] s[i] == c by {
            if i < s.len() - 1 {
                assert(s.drop_last()[i] == c);
            }
        }
    } else {
        assert(t =~= s.take(t.len() as int));
    }
}

/// A text in lower case has a small letter in place of each capital of ASCII, and is the same elsewhere.
pub proof fn law_lower(s: Seq<char>, i: int)
    requires
        0 <= i < s.len(),
    ensures
        text::lower(s).len() == s.len(),
        65 <= s[i] as int <= 90 ==> text::lower(s)[i] as int == s[i] as int + 32,
        !(65 <= s[i] as int <= 90) ==> text::lower(s)[i] == s[i],
{
}

/// The number that a numeral tells.
pub open spec fn number_of(s: Seq<char>) -> nat
    decreases s.len(),
{
    if s.len() == 0 {
        0
    } else {
        (number_of(s.drop_last()) * 10 + (s.last() as nat) - 48) as nat
    }
}

/// A decimal numeral tells its number, in the fewest digits.
pub proof fn law_decimal(n: nat)
    ensures
        number_of(text::decimal(n)) == n,
        text::decimal(n).len() > 0,
        text::decimal(n).len() > 1 ==> text::decimal(n)[0] != '0',
    decreases n,
{
    let d = text::decimal(n);
    assert(forall|k: int| 0 <= k < 10 ==> (#[trigger] text::digit_char(k)) as int == 48 + k);
    if n < 10 {
        assert(d.drop_last() =~= Seq::empty());
        assert(number_of(Seq::empty()) == 0);
    } else {
        law_decimal(n / 10);
        let rest = text::decimal(n / 10);
        assert(d.drop_last() =~= rest);
        assert(d[0] == rest[0]);
        if rest.len() == 1 {
            assert(rest.drop_last() =~= Seq::empty());
            assert(number_of(Seq::empty()) == 0);
        }
    }
}

// ----------------------------------------------------------------------------------------------
// Parts
// ----------------------------------------------------------------------------------------------

/// The lines of a text with one more line: a line feed ends it, a carriage return before that is no part
/// of it, and without a line feed it is a line where it is not empty.
pub proof fn law_lines(s: Seq<char>, line: Seq<char>)
    requires
        !line.contains('\n'),
    ensures
        text::lines(Seq::empty()) == Seq::<Seq<char>>::empty(),
        line.len() > 0 ==> text::lines(line) == seq![line],
        line.len() > 0 ==> text::lines(s.push('\n') + line) == text::lines(s.push('\n')).push(line),
        line.len() == 0 || line.last() != '\r' ==> text::lines((s.push('\n') + line).push('\n')) == text::lines(
            s.push('\n'),
        ).push(line),
        text::lines((s.push('\n') + line + seq!['\r']).push('\n')) == text::lines(s.push('\n')).push(line),
        line.len() == 0 || line.last() != '\r' ==> text::lines(line.push('\n')) == seq![line],
        text::lines((line + seq!['\r']).push('\n')) == seq![line],
{
    let none = Seq::<char>::empty();
    let cr = line + seq!['\r'];
    let p = text::split_on(s, '\n');
    let q = s.push('\n');
    text::lemma_split_append(s, none, '\n');
    text::lemma_split_append(s, line, '\n');
    text::lemma_split_append(q + line, none, '\n');
    text::lemma_split_append(line, none, '\n');
    assert(!cr.contains('\n')) by {
        if cr.contains('\n') {
            let k = choose|k: int| 0 <= k < cr.len() && cr[k] == '\n';
            if k < line.len() {
                assert(line[k] == '\n');
            }
        }
    }
    text::lemma_split_append(s, cr, '\n');
    assert(q + cr =~= q + line + seq!['\r']);
    text::lemma_split_append(q + cr, none, '\n');
    text::lemma_split_append(cr, none, '\n');
    text::lemma_split_whole(line, '\n');
    text::lemma_split_whole(cr, '\n');
    assert(q + none =~= q);
    assert((q + line).push('\n') + none =~= (q + line).push('\n'));
    assert((q + cr).push('\n') + none =~= (q + cr).push('\n'));
    assert(line.push('\n') + none =~= line.push('\n'));
    assert(cr.push('\n') + none =~= cr.push('\n'));
    assert(cr.drop_last() =~= line);
    text::lemma_split_nonempty(s, '\n');
    assert(text::split_on(q, '\n') =~= p.push(none));
    assert(text::lines(none) =~= Seq::<Seq<char>>::empty());
    let base = text::lines(q);
    assert(base =~= Seq::new(p.len(), |i: int| text::without_cr(p[i])));
    if line.len() > 0 {
        assert(text::lines(line) =~= seq![line]);
        assert(text::lines(q + line) =~= base.push(line));
    }
    if line.len() == 0 || line.last() != '\r' {
        assert(text::lines((q + line).push('\n')) =~= base.push(line));
        assert(text::lines(line.push('\n')) =~= seq![line]);
    }
    assert(text::lines((q + cr).push('\n')) =~= base.push(line));
    assert(text::lines(cr.push('\n')) =~= seq![line]);
}

/// What stands before and after the last copy of a character, and what is cut where there is none.
pub proof fn law_around_last(a: Seq<char>, b: Seq<char>, c: char)
    requires
        !b.contains(c),
    ensures
        text::after_last(a.push(c) + b, c) == b,
        text::before_last(a.push(c) + b, c) == a,
        text::after_last(b, c) == b,
        text::before_last(b, c) == Seq::<char>::empty(),
{
    let s = a.push(c) + b;
    text::lemma_last_position(s, c);
    text::lemma_last_position(b, c);
    assert(s[a.len() as int] == c);
    assert(s.contains(c));
    assert forall|k: int| a.len() < k < s.len() implies s[k] != c by {
        assert(s[k] == b[k - a.len() - 1]);
        assert(b.contains(b[k - a.len() - 1]));
    }
    let i = text::last_position(s, c)->0;
    assert(i == a.len());
    assert(s.skip(i + 1) =~= b);
    assert(s.take(i) =~= a);
    if let Some(k) = text::last_position(b, c) {
        assert(b.contains(b[k]));
    }
}

} // verus!
