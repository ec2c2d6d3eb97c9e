//! The order of texts and of composite keys, and stable sorting by key.
use vstd::prelude::*;

use crate::text;

verus! {

/// Whether `a` comes before `b` from position `i` on, the characters before `i` being equal: at
/// the first difference the smaller code point wins, and a proper prefix comes first.
pub open spec fn lt_from(a: Seq<char>, b: Seq<char>, i: int) -> bool
    decreases a.len() - i,
{
    if i >= b.len() {
        false
    } else if i >= a.len() {
        true
    } else if a[i] != b[i] {
        a[i] < b[i]
    } else {
        lt_from(a, b, i + 1)
    }
}

/// Whether the text `a` comes before the text `b`: the order by code points, which is also the
/// order of the UTF-8 bytes.
pub open spec fn text_lt(a: Seq<char>, b: Seq<char>) -> bool {
    lt_from(a, b, 0)
}

proof fn lemma_lt_from_total(a: Seq<char>, b: Seq<char>, i: int)
    requires
        0 <= i <= a.len(),
        i <= b.len(),
        forall|j: int| 0 <= j < i ==> a[j] == b[j],
    ensures
        !(lt_from(a, b, i) && lt_from(b, a, i)),
        lt_from(a, b, i) || lt_from(b, a, i) || a == b,
        a == b ==> !lt_from(a, b, i),
    decreases a.len() - i,
{
    if i < a.len() && i < b.len() && a[i] == b[i] {
        lemma_lt_from_total(a, b, i + 1);
    } else if i >= a.len() && i >= b.len() {
        assert(a =~= b);
    }
}

proof fn lemma_lt_from_trans(a: Seq<char>, b: Seq<char>, c: Seq<char>, i: int)
    requires
        0 <= i,
        lt_from(a, b, i),
        lt_from(b, c, i),
    ensures
        lt_from(a, c, i),
    decreases a.len() - i,
{
    if i < a.len() && i < b.len() && i < c.len() && a[i] == b[i] && b[i] == c[i] {
        lemma_lt_from_trans(a, b, c, i + 1);
    }
}

/// Of two texts exactly one comes first, unless they are equal.
pub proof fn lemma_text_total(a: Seq<char>, b: Seq<char>)
    ensures
        !(text_lt(a, b) && text_lt(b, a)),
        text_lt(a, b) || text_lt(b, a) || a == b,
        a == b ==> !text_lt(a, b),
{
    lemma_lt_from_total(a, b, 0);
}

/// The order of texts is transitive.
pub proof fn lemma_text_trans(a: Seq<char>, b: Seq<char>, c: Seq<char>)
    requires
        text_lt(a, b),
        text_lt(b, c),
    ensures
        text_lt(a, c),
{
    lemma_lt_from_trans(a, b, c, 0);
}

/// Whether the text `a` comes before the text `b`.
pub fn text_less(a: &str, b: &str) -> (r: bool)
    ensures
        r == text_lt(a@, b@),
{
    let x = text::chars_of(a);
    let y = text::chars_of(b);
    let mut i: usize = 0;
    while i < x.len() && i < y.len()
        invariant
            x@ == a@,
            y@ == b@,
            i <= x@.len(),
            i <= y@.len(),
            text_lt(a@, b@) == lt_from(x@, y@, i as int),
        decreases x@.len() - i,
    {
        if x[i] != y[i] {
            return x[i] < y[i];
        }
        i = i + 1;
    }
    i < y.len()
}

/// Whether `k` holds strictly ascending texts.
pub open spec fn ascending(k: Seq<Seq<char>>) -> bool {
    forall|i: int, j: int| 0 <= i < j < k.len() ==> text_lt(#[trigger] k[i], #[trigger] k[j])
}


/// Strictly ascending texts with the same members are the same sequence.
pub proof fn law_ascending_unique(a: Seq<Seq<char>>, b: Seq<Seq<char>>)
    requires
        ascending(a),
        ascending(b),
        forall|x: Seq<char>| #![trigger a.contains(x)] #![trigger b.contains(x)] a.contains(x) == b.contains(x),
    ensures
        a == b,
    decreases a.len(),
{
    if a.len() == 0 {
        if b.len() > 0 {
            assert(b.contains(b[0]));
        }
        assert(a =~= b);
    } else {
        assert(a.contains(a.last()));
        assert(b.len() > 0);
        let p = choose|p: int| 0 <= p < b.len() && b[p] == a.last();
        assert(b.contains(b.last()));
        let q = choose|q: int| 0 <= q < a.len() && a[q] == b.last();
        lemma_text_total(a.last(), b.last());
        if p < b.len() - 1 {
            assert(text_lt(b[p], b[b.len() - 1]));
        }
        if q < a.len() - 1 {
            assert(text_lt(a[q], a[a.len() - 1]));
        }
        assert(a.last() == b.last());
        let c = a.drop_last();
        let d = b.drop_last();
        assert forall|x: Seq<char>|
            #![trigger c.contains(x)]
            #![trigger d.contains(x)]
            c.contains(x) == d.contains(x) by {
            lemma_text_total(a.last(), a.last());
            if c.contains(x) {
                let i = choose|i: int| 0 <= i < c.len() && c[i] == x;
                assert(a[i] == x);
                assert(a.contains(x));
                assert(text_lt(a[i], a[a.len() - 1]));
                let j = choose|j: int| 0 <= j < b.len() && b[j] == x;
                assert(j != b.len() - 1);
                assert(d[j] == x);
            }
            if d.contains(x) {
                let i = choose|i: int| 0 <= i < d.len() && d[i] == x;
                assert(b[i] == x);
                assert(b.contains(x));
                assert(text_lt(b[i], b[b.len() - 1]));
                assert(a.contains(x));
                let j = choose|j: int| 0 <= j < a.len() && a[j] == x;
                assert(j != a.len() - 1);
                assert(c[j] == x);
            }
        }
        law_ascending_unique(c, d);
        assert(a =~= c.push(a.last()));
        assert(b =~= d.push(b.last()));
    }
}

/// Adds a text to an ascending list, once.
pub fn insert_text(list: &mut Vec<String>, x: String)
    requires
        ascending(text::views(old(list)@)),
    ensures
        ascending(text::views(final(list)@)),
        forall|y: Seq<char>|
            #[trigger] text::views(final(list)@).contains(y) == (text::views(old(list)@).contains(y) || y == x@),
{
    let ghost before = text::views(list@);
    let ghost xv = x@;
    let mut i: usize = 0;
    while i < list.len() && text_less(list[i].as_str(), x.as_str())
        invariant
            i <= list@.len(),
            xv == x@,
            before == text::views(list@),
            forall|j: int| 0 <= j < i ==> text_lt(#[trigger] before[j], xv),
        decreases list@.len() - i,
    {
        assert(before[i as int] == list@[i as int]@);
        i = i + 1;
    }
    if i < list.len() && text::same(list[i].as_str(), x.as_str()) {
        assert(before[i as int] == xv);
        return ;
    }
    list.insert(i, x);
    proof {
        let after = text::views(list@);
        assert(after =~= before.insert(i as int, xv));
        assert forall|p: int, q: int| 0 <= p < q < after.len() implies text_lt(
            #[trigger] after[p],
            #[trigger] after[q],
        ) by {
            let op = if p < i { p } else { p - 1 };
            let oq = if q < i { q } else { q - 1 };
            if p != i && q != i {
                assert(after[p] == before[op] && after[q] == before[oq]);
            } else if p == i {
                assert(after[q] == before[oq]);
                lemma_text_total(xv, before[i as int]);
                if oq > i {
                    assert(text_lt(before[i as int], before[oq]));
                    lemma_text_trans(xv, before[i as int], before[oq]);
                }
            } else {
                assert(after[p] == before[p]);
            }
        }
        assert forall|y: Seq<char>| #[trigger] after.contains(y) == (before.contains(y) || y == xv) by {
            if after.contains(y) {
                let j = choose|j: int| 0 <= j < after.len() && after[j] == y;
                if j < i {
                    assert(before[j] == y);
                } else if j > i {
                    assert(before[j - 1] == y);
                }
            }
            if before.contains(y) {
                let j = choose|j: int| 0 <= j < before.len() && before[j] == y;
                let nj = if j < i { j } else { j + 1 };
                assert(after[nj] == y);
            }
            if y == xv {
                assert(after[i as int] == y);
            }
        }
    }
}

/// A composite sort key: its parts count in the order of the fields.
#[derive(Debug)]
pub struct SortKey {
    pub rank: u64,
    pub first: String,
    pub second: String,
    pub row: u64,
    pub col: u64,
}

/// The value of a composite sort key.
pub struct SortKeyView {
    pub rank: u64,
    pub first: Seq<char>,
    pub second: Seq<char>,
    pub row: u64,
    pub col: u64,
}

impl View for SortKey {
    type V = SortKeyView;

    open spec fn view(&self) -> SortKeyView {
        SortKeyView {
            rank: self.rank,
            first: self.first@,
            second: self.second@,
            row: self.row,
            col: self.col,
        }
    }
}

/// Whether the key `a` comes before the key `b`.
pub open spec fn key_lt(a: SortKeyView, b: SortKeyView) -> bool {
    if a.rank != b.rank {
        a.rank < b.rank
    } else if a.first != b.first {
        text_lt(a.first, b.first)
    } else if a.second != b.second {
        text_lt(a.second, b.second)
    } else if a.row != b.row {
        a.row < b.row
    } else {
        a.col < b.col
    }
}

/// Of two keys exactly one comes first, unless they are equal.
pub proof fn lemma_key_total(a: SortKeyView, b: SortKeyView)
    ensures
        !(key_lt(a, b) && key_lt(b, a)),
        key_lt(a, b) || key_lt(b, a) || a == b,
        a == b ==> !key_lt(a, b),
{
    lemma_text_total(a.first, b.first);
    lemma_text_total(a.second, b.second);
}

/// The order of keys is transitive.
pub proof fn lemma_key_trans(a: SortKeyView, b: SortKeyView, c: SortKeyView)
    requires
        key_lt(a, b),
        key_lt(b, c),
    ensures
        key_lt(a, c),
{
    lemma_text_total(a.first, b.first);
    lemma_text_total(b.first, c.first);
    lemma_text_total(a.first, c.first);
    lemma_text_total(a.second, b.second);
    lemma_text_total(b.second, c.second);
    lemma_text_total(a.second, c.second);
    if text_lt(a.first, b.first) && text_lt(b.first, c.first) {
        lemma_text_trans(a.first, b.first, c.first);
    }
    if text_lt(a.second, b.second) && text_lt(b.second, c.second) {
        lemma_text_trans(a.second, b.second, c.second);
    }
}

/// Whether the key `a` comes before the key `b`.
pub fn key_less(a: &SortKey, b: &SortKey) -> (r: bool)
    ensures
        r == key_lt(a@, b@),
{
    if a.rank != b.rank {
        a.rank < b.rank
    } else if !text::same(a.first.as_str(), b.first.as_str()) {
        text_less(a.first.as_str(), b.first.as_str())
    } else if !text::same(a.second.as_str(), b.second.as_str()) {
        text_less(a.second.as_str(), b.second.as_str())
    } else if a.row != b.row {
        a.row < b.row
    } else {
        a.col < b.col
    }
}

/// The views of a sequence of keys.
pub open spec fn key_views(keys: Seq<SortKey>) -> Seq<SortKeyView> {
    Seq::new(keys.len(), |i: int| keys[i]@)
}

/// Whether item `p` stands before item `q` in the stable order of `keys`: by key, and by position
/// where the keys are equal.
pub open spec fn stands_before(keys: Seq<SortKeyView>, p: int, q: int) -> bool {
    key_lt(keys[p], keys[q]) || (keys[p] == keys[q] && p < q)
}

/// Whether `at` lists the positions `0..n`, each once, in the stable order of `keys`.
pub open spec fn stable_order(keys: Seq<SortKeyView>, at: Seq<int>) -> bool {
    &&& at.len() == keys.len()
    &&& forall|i: int| 0 <= i < at.len() ==> 0 <= #[trigger] at[i] < keys.len()
    &&& forall|i: int, j: int|
        0 <= i < j < at.len() ==> stands_before(keys, #[trigger] at[i], #[trigger] at[j])
}

/// Two lists of positions in the stable order of the same keys are the same list.
pub proof fn law_stable_order_unique(keys: Seq<SortKeyView>, a: Seq<int>, b: Seq<int>)
    requires
        stable_order(keys, a),
        stable_order(keys, b),
    ensures
        a == b,
{
    assert forall|k: int| 0 <= k < a.len() implies a[k] == b[k] by {
        lemma_rank_agrees(keys, a, b, k);
    }
    assert(a =~= b);
}

proof fn lemma_rank_agrees(keys: Seq<SortKeyView>, a: Seq<int>, b: Seq<int>, k: int)
    requires
        stable_order(keys, a),
        stable_order(keys, b),
        0 <= k < a.len(),
    ensures
        a[k] == b[k],
    decreases k,
{
    assert forall|j: int| 0 <= j < k implies a[j] == b[j] by {
        lemma_rank_agrees(keys, a, b, j);
    }
    lemma_lists_all(keys, a, b[k]);
    lemma_lists_all(keys, b, a[k]);
    let i = choose|i: int| 0 <= i < a.len() && a[i] == b[k];
    let j = choose|j: int| 0 <= j < b.len() && b[j] == a[k];
    lemma_before_asym(keys, a[k], b[k]);
    if i < k {
        assert(b[i] == b[k]);
        lemma_before_asym(keys, b[i], b[k]);
        assert(stands_before(keys, b[i], b[k]));
    }
    if j < k {
        assert(a[j] == a[k]);
        lemma_before_asym(keys, a[j], a[k]);
        assert(stands_before(keys, a[j], a[k]));
    }
    if i > k && j > k {
        assert(stands_before(keys, a[k], a[i]));
        assert(stands_before(keys, b[k], b[j]));
    }
}

proof fn lemma_before_asym(keys: Seq<SortKeyView>, p: int, q: int)
    ensures
        !(stands_before(keys, p, q) && stands_before(keys, q, p)),
        !stands_before(keys, p, p),
        stands_before(keys, p, q) || stands_before(keys, q, p) || p == q,
{
    lemma_key_total(keys[p], keys[q]);
    lemma_key_total(keys[p], keys[p]);
}

/// A list of `n` distinct positions below `n` lists every position.
pub proof fn lemma_lists_all(keys: Seq<SortKeyView>, at: Seq<int>, x: int)
    requires
        stable_order(keys, at),
        0 <= x < keys.len(),
    ensures
        exists|i: int| 0 <= i < at.len() && at[i] == x,
{
    let n = keys.len();
    assert forall|i: int, j: int| 0 <= i < at.len() && 0 <= j < at.len() && i != j implies at[i] != at[j] by {
        if i < j {
            lemma_before_asym(keys, at[i], at[j]);
            assert(stands_before(keys, at[i], at[j]));
        } else {
            lemma_before_asym(keys, at[j], at[i]);
            assert(stands_before(keys, at[j], at[i]));
        }
    }
    assert(at.no_duplicates());
    at.unique_seq_to_set();
    let all = vstd::set_lib::set_int_range(0, n as int);
    vstd::set_lib::lemma_int_range(0, n as int);
    assert forall|y: int| at.to_set().contains(y) implies all.contains(y) by {
        let i = choose|i: int| 0 <= i < at.len() && at[i] == y;
        assert(0 <= at[i] < keys.len());
    }
    vstd::set_lib::lemma_subset_equality(at.to_set(), all);
    assert(at.to_set().contains(x));
}

/// A position put into a stable order behind those that it does not come before, and before those
/// that it comes before, keeps the order stable.
proof fn lemma_insert_order(keys: Seq<SortKeyView>, at: Seq<int>, n: nat, p: int)
    requires
        n < keys.len(),
        stable_order(keys.take(n as int), at),
        0 <= p <= at.len(),
        forall|j: int| p <= j < at.len() ==> key_lt(keys[n as int], keys[#[trigger] at[j]]),
        p > 0 ==> !key_lt(keys[n as int], keys[at[p - 1]]),
    ensures
        stable_order(keys.take((n + 1) as int), at.insert(p, n as int)),
{
    let k = keys.take((n + 1) as int);
    let after = at.insert(p, n as int);
    assert forall|i: int| 0 <= i < after.len() implies 0 <= #[trigger] after[i] < k.len() by {
        if i < p {
            assert(after[i] == at[i]);
        } else if i > p {
            assert(after[i] == at[i - 1]);
        }
    }
    assert forall|i: int, j: int| 0 <= i < j < after.len() implies stands_before(
        k,
        #[trigger] after[i],
        #[trigger] after[j],
    ) by {
        let oi = if i < p { i } else { i - 1 };
        let oj = if j < p { j } else { j - 1 };
        if i != p && j != p {
            assert(after[i] == at[oi]);
            assert(after[j] == at[oj]);
            assert(stands_before(keys.take(n as int), at[oi], at[oj]));
        } else if i == p {
            assert(after[j] == at[oj]);
        } else {
            assert(after[i] == at[i]);
            // The item just before the insertion point does not come after the new one.
            let q = at[p - 1];
            lemma_key_total(keys[n as int], keys[q]);
            if i < p - 1 {
                assert(stands_before(keys.take(n as int), at[i], at[p - 1]));
                if key_lt(keys[at[i]], keys[q]) && key_lt(keys[q], keys[n as int]) {
                    lemma_key_trans(keys[at[i]], keys[q], keys[n as int]);
                }
            }
        }
    }
}

/// The values of a list of positions.
pub open spec fn positions(v: Seq<usize>) -> Seq<int> {
    Seq::new(v.len(), |i: int| v[i] as int)
}

/// The positions of `keys` in stable order.
pub fn sorted_positions(keys: &Vec<SortKey>) -> (r: Vec<usize>)
    ensures
        stable_order(key_views(keys@), positions(r@)),
        r@.len() == keys@.len(),
        forall|i: int| 0 <= i < r@.len() ==> #[trigger] r@[i] < keys@.len(),
{
    let ghost kv = key_views(keys@);
    let mut at: Vec<usize> = Vec::new();
    let mut n: usize = 0;
    while n < keys.len()
        invariant
            kv == key_views(keys@),
            n <= keys@.len(),
            stable_order(kv.take(n as int), positions(at@)),
        decreases keys@.len() - n,
    {
        let ghost old_at = positions(at@);
        let mut p: usize = at.len();
        assert(forall|j: int| 0 <= j < at@.len() ==> #[trigger] at@[j] == old_at[j]);
        while p > 0 && key_less(&keys[n], &keys[at[p - 1]])
            invariant
                kv == key_views(keys@),
                n < keys@.len(),
                old_at == positions(at@),
                stable_order(kv.take(n as int), old_at),
                p <= at@.len(),
                forall|j: int| 0 <= j < at@.len() ==> #[trigger] at@[j] == old_at[j],
                forall|j: int| p <= j < old_at.len() ==> key_lt(kv[n as int], kv[#[trigger] old_at[j]]),
            decreases p,
        {
            assert(kv[n as int] == keys@[n as int]@);
            p = p - 1;
        }
        at.insert(p, n);
        proof {
            lemma_insert_order(kv, old_at, n as nat, p as int);
            assert(positions(at@) =~= old_at.insert(p as int, n as int));
        }
        n = n + 1;
    }
    assert(kv.take(kv.len() as int) == kv);
    assert forall|i: int| 0 <= i < at@.len() implies #[trigger] at@[i] < keys@.len() by {
        assert(positions(at@)[i] == at@[i]);
    }
    at
}

/// The positions of `keys` in stable order.
pub open spec fn order_of(keys: Seq<SortKeyView>) -> Seq<int> {
    choose|at: Seq<int>| stable_order(keys, at)
}

/// A list of positions in the stable order of some keys is the one such list.
pub proof fn lemma_order_of(keys: Seq<SortKeyView>, at: Seq<int>)
    requires
        stable_order(keys, at),
    ensures
        at == order_of(keys),
{
    law_stable_order_unique(keys, at, order_of(keys));
}

/// The items of `s` at the positions `at`.
pub open spec fn arranged<T>(s: Seq<T>, at: Seq<int>) -> Seq<T> {
    Seq::new(at.len(), |i: int| s[at[i]])
}

/// Whether `k` lists the members of `s`, each once and in order.
pub open spec fn lists_set(s: Seq<Seq<char>>, k: Seq<Seq<char>>) -> bool {
    ascending(k) && forall|x: Seq<char>|
        #![trigger k.contains(x)]
        #![trigger s.contains(x)]
        k.contains(x) == s.contains(x)
}

/// The members of `s`, each once and in order.
pub open spec fn sorted_set(s: Seq<Seq<char>>) -> Seq<Seq<char>> {
    choose|k: Seq<Seq<char>>| lists_set(s, k)
}

/// A list of the members of `s`, each once and in order, is the one such list.
pub proof fn lemma_sorted_set(s: Seq<Seq<char>>, k: Seq<Seq<char>>)
    requires
        lists_set(s, k),
    ensures
        k == sorted_set(s),
{
    let m = sorted_set(s);
    assert(lists_set(s, m));
    assert forall|x: Seq<char>|
        #![trigger k.contains(x)]
        #![trigger m.contains(x)]
        k.contains(x) == m.contains(x) by {
        assert(m.contains(x) == s.contains(x));
    }
    law_ascending_unique(k, m);
}

proof fn insertion_point(keys: Seq<SortKeyView>, at: Seq<int>, n: nat, p: int) -> (r: int)
    requires
        n < keys.len(),
        0 <= p <= at.len(),
        forall|j: int| p <= j < at.len() ==> key_lt(keys[n as int], keys[#[trigger] at[j]]),
    ensures
        0 <= r <= p,
        forall|j: int| r <= j < at.len() ==> key_lt(keys[n as int], keys[#[trigger] at[j]]),
        r > 0 ==> !key_lt(keys[n as int], keys[at[r - 1]]),
    decreases p,
{
    if p > 0 && key_lt(keys[n as int], keys[at[p - 1]]) {
        insertion_point(keys, at, n, p - 1)
    } else {
        p
    }
}

proof fn lemma_order_upto(keys: Seq<SortKeyView>, n: nat) -> (at: Seq<int>)
    requires
        n <= keys.len(),
    ensures
        stable_order(keys.take(n as int), at),
    decreases n,
{
    if n == 0 {
        Seq::empty()
    } else {
        let m = (n - 1) as nat;
        let before = lemma_order_upto(keys, m);
        let p = insertion_point(keys, before, m, before.len() as int);
        lemma_insert_order(keys, before, m, p);
        before.insert(p, m as int)
    }
}

/// There is a stable order of any keys.
pub proof fn law_stable_order_exists(keys: Seq<SortKeyView>)
    ensures
        stable_order(keys, order_of(keys)),
{
    let at = lemma_order_upto(keys, keys.len());
    assert(keys.take(keys.len() as int) =~= keys);
    assert(stable_order(keys, at));
}

/// Sorting keeps the items: nothing is lost and nothing is added.
pub proof fn law_sorting_keeps<T>(s: Seq<T>, keys: Seq<SortKeyView>)
    requires
        s.len() == keys.len(),
    ensures
        arranged(s, order_of(keys)).len() == s.len(),
        forall|x: T| #[trigger] arranged(s, order_of(keys)).contains(x) == s.contains(x),
{
    law_stable_order_exists(keys);
    let at = order_of(keys);
    let t = arranged(s, at);
    assert forall|x: T| #[trigger] t.contains(x) == s.contains(x) by {
        if t.contains(x) {
            let i = choose|i: int| 0 <= i < t.len() && t[i] == x;
            assert(s[at[i]] == x);
        }
        if s.contains(x) {
            let k = choose|k: int| 0 <= k < s.len() && s[k] == x;
            lemma_lists_all(keys, at, k);
            let i = choose|i: int| 0 <= i < at.len() && at[i] == k;
            assert(t[i] == x);
        }
    }
}

/// Whether no key comes before one that stands earlier.
pub open spec fn in_order(keys: Seq<SortKeyView>) -> bool {
    forall|i: int, j: int| 0 <= i < j < keys.len() ==> !key_lt(#[trigger] keys[j], #[trigger] keys[i])
}

/// Sorted keys are in order.
pub proof fn law_sorted_in_order(keys: Seq<SortKeyView>)
    ensures
        in_order(arranged(keys, order_of(keys))),
{
    law_stable_order_exists(keys);
    let at = order_of(keys);
    let t = arranged(keys, at);
    assert forall|i: int, j: int| 0 <= i < j < t.len() implies !key_lt(#[trigger] t[j], #[trigger] t[i]) by {
        assert(stands_before(keys, at[i], at[j]));
        lemma_key_total(keys[at[i]], keys[at[j]]);
    }
}

/// A text can be put in its place among ascending texts.
proof fn lemma_inserted(k: Seq<Seq<char>>, x: Seq<char>) -> (r: Seq<Seq<char>>)
    requires
        ascending(k),
    ensures
        ascending(r),
        forall|y: Seq<char>| #[trigger] r.contains(y) == (k.contains(y) || y == x),
    decreases k.len(),
{
    if k.len() == 0 {
        let r = seq![x];
        assert(r[0] == x);
        r
    } else {
        let last = k.last();
        let rest = k.drop_last();
        lemma_text_total(last, x);
        if last == x {
            k
        } else if text_lt(last, x) {
            let r = k.push(x);
            assert forall|i: int, j: int| 0 <= i < j < r.len() implies text_lt(#[trigger] r[i], #[trigger] r[j]) by {
                if j == k.len() && i < k.len() - 1 {
                    assert(text_lt(k[i], k[k.len() - 1]));
                    lemma_text_trans(k[i], last, x);
                }
            }
            assert forall|y: Seq<char>| #[trigger] r.contains(y) == (k.contains(y) || y == x) by {
                crate::model::lemma_pushed(k, x, y);
            }
            r
        } else {
            let m = lemma_inserted(rest, x);
            let r = m.push(last);
            assert(k =~= rest.push(last));
            assert forall|i: int, j: int| 0 <= i < j < r.len() implies text_lt(#[trigger] r[i], #[trigger] r[j]) by {
                if j == m.len() {
                    assert(m.contains(m[i]));
                    if m[i] != x {
                        assert(rest.contains(m[i]));
                        let w = choose|w: int| 0 <= w < rest.len() && rest[w] == m[i];
                        assert(text_lt(k[w], k[k.len() - 1]));
                    }
                }
            }
            assert forall|y: Seq<char>| #[trigger] r.contains(y) == (k.contains(y) || y == x) by {
                crate::model::lemma_pushed(m, last, y);
                crate::model::lemma_pushed(rest, last, y);
            }
            r
        }
    }
}

/// What a finite search gives can be listed in ascending order, each text once.
pub proof fn lemma_listed(n: nat, hit: spec_fn(int) -> bool, text: spec_fn(int) -> Seq<char>) -> (r: Seq<Seq<char>>)
    ensures
        ascending(r),
        forall|u: Seq<char>|
            #[trigger] r.contains(u) == exists|i: int| 0 <= i < n && #[trigger] hit(i) && text(i) == u,
    decreases n,
{
    if n == 0 {
        Seq::empty()
    } else {
        let m = (n - 1) as nat;
        let rest = lemma_listed(m, hit, text);
        if hit(m as int) {
            let r = lemma_inserted(rest, text(m as int));
            assert forall|u: Seq<char>| #[trigger] r.contains(u) == exists|i: int|
                0 <= i < n && #[trigger] hit(i) && text(i) == u by {
                assert(rest.contains(u) == exists|i: int| 0 <= i < m && #[trigger] hit(i) && text(i) == u);
                if r.contains(u) && !rest.contains(u) {
                    assert(hit(m as int) && text(m as int) == u);
                }
                if exists|i: int| 0 <= i < n && #[trigger] hit(i) && text(i) == u {
                    let i = choose|i: int| 0 <= i < n && #[trigger] hit(i) && text(i) == u;
                    if i < m {
                        assert(hit(i) && text(i) == u);
                    }
                }
            }
            r
        } else {
            assert forall|u: Seq<char>| #[trigger] rest.contains(u) == exists|i: int|
                0 <= i < n && #[trigger] hit(i) && text(i) == u by {
                if exists|i: int| 0 <= i < n && #[trigger] hit(i) && text(i) == u {
                    let i = choose|i: int| 0 <= i < n && #[trigger] hit(i) && text(i) == u;
                    assert(i < m);
                }
            }
            rest
        }
    }
}

/// How many of the first `n` numbers are hit.
pub open spec fn counted(hit: spec_fn(int) -> bool, n: nat) -> nat
    decreases n,
{
    if n == 0 {
        0
    } else {
        counted(hit, (n - 1) as nat) + if hit(n - 1) {
            1nat
        } else {
            0
        }
    }
}

/// A count is zero where nothing is hit, and at most one where no two numbers are.
pub proof fn lemma_counted(hit: spec_fn(int) -> bool, n: nat)
    ensures
        counted(hit, n) == 0 <==> forall|i: int| 0 <= i < n ==> !#[trigger] hit(i),
        counted(hit, n) <= 1 <==> forall|i: int, k: int| 0 <= i < k < n ==> !(#[trigger] hit(i) && #[trigger] hit(k)),
    decreases n,
{
    if n > 0 {
        let m = (n - 1) as nat;
        let last = n - 1;
        lemma_counted(hit, m);
        if hit(last) {
            if counted(hit, m) > 0 {
                let i = choose|i: int| 0 <= i < m && #[trigger] hit(i);
                assert(hit(i) && hit(last));
            }
        }
    }
}
/// Whether a sequence holds the items of those of the first `n` numbers that are hit, in their order,
/// and nothing else.
pub open spec fn picks<T>(s: Seq<T>, n: nat, hit: spec_fn(int) -> bool, item: spec_fn(int) -> T) -> bool {
    &&& s.len() == counted(hit, n)
    &&& forall|i: int| 0 <= i < n && #[trigger] hit(i) ==> s[counted(hit, i as nat) as int] == item(i)
}

/// Nothing is picked of nothing.
pub proof fn lemma_picks_none<T>(hit: spec_fn(int) -> bool, item: spec_fn(int) -> T)
    ensures
        picks(Seq::empty(), 0, hit, item),
{
}

/// What is picked of one number more.
pub proof fn lemma_picks_next<T>(s: Seq<T>, t: Seq<T>, n: nat, hit: spec_fn(int) -> bool, item: spec_fn(int) -> T)
    requires
        picks(s, n, hit, item),
        t == if hit(n as int) {
            s.push(item(n as int))
        } else {
            s
        },
    ensures
        picks(t, n + 1, hit, item),
{
    assert forall|i: int| 0 <= i < n + 1 && #[trigger] hit(i) implies t[counted(hit, i as nat) as int] == item(i) by {
        if i < n {
            lemma_counted_less(hit, i as nat, n);
        }
    }
}

proof fn lemma_counted_less(hit: spec_fn(int) -> bool, i: nat, n: nat)
    requires
        i < n,
        hit(i as int),
    ensures
        counted(hit, i) < counted(hit, n),
    decreases n,
{
    if i < n - 1 {
        lemma_counted_less(hit, i, (n - 1) as nat);
    }
}

/// Texts are ordered by the first place where they differ, and a text comes before those that it begins.
pub proof fn law_text_order(a: Seq<char>, b: Seq<char>)
    ensures
        text_lt(a, b) <==> exists|k: int|
            0 <= k <= a.len() && k < b.len() && (k == a.len() || a[k] < b[k]) && #[trigger] a.take(k) == b.take(k),
{
    assert(a.take(0) =~= b.take(0));
    lemma_first_difference(a, b, 0);
    if exists|k: int|
        0 <= k <= a.len() && k < b.len() && (k == a.len() || a[k] < b[k]) && #[trigger] a.take(k) == b.take(k) {
        let k = choose|k: int|
            0 <= k <= a.len() && k < b.len() && (k == a.len() || a[k] < b[k]) && #[trigger] a.take(k) == b.take(k);
        lemma_differs_at(a, b, 0, k);
    }
}

proof fn lemma_first_difference(a: Seq<char>, b: Seq<char>, i: int)
    requires
        0 <= i <= a.len(),
        i <= b.len(),
        a.take(i) == b.take(i),
    ensures
        lt_from(a, b, i) ==> exists|k: int|
            0 <= k <= a.len() && k < b.len() && (k == a.len() || a[k] < b[k]) && #[trigger] a.take(k) == b.take(k),
    decreases a.len() - i,
{
    if i < b.len() {
        if i < a.len() && a[i] == b[i] {
            assert(a.take(i + 1) =~= a.take(i).push(a[i]));
            assert(b.take(i + 1) =~= b.take(i).push(b[i]));
            lemma_first_difference(a, b, i + 1);
        }
    }
}

proof fn lemma_differs_at(a: Seq<char>, b: Seq<char>, i: int, k: int)
    requires
        0 <= i <= k <= a.len(),
        k < b.len(),
        k == a.len() || a[k] < b[k],
        a.take(k) == b.take(k),
    ensures
        lt_from(a, b, i),
    decreases k - i,
{
    if i < k {
        assert(a[i] == a.take(k)[i]);
        assert(b[i] == b.take(k)[i]);
        lemma_differs_at(a, b, i + 1, k);
    }
}

/// Keys are ordered by rank, then by their texts, then by row and column.
pub proof fn law_key_order(a: SortKeyView, b: SortKeyView)
    ensures
        a.rank < b.rank ==> key_lt(a, b),
        a.rank == b.rank && text_lt(a.first, b.first) ==> key_lt(a, b),
        a.rank == b.rank && a.first == b.first && text_lt(a.second, b.second) ==> key_lt(a, b),
        a.rank == b.rank && a.first == b.first && a.second == b.second && a.row < b.row ==> key_lt(a, b),
        a.rank == b.rank && a.first == b.first && a.second == b.second && a.row == b.row && a.col < b.col ==> key_lt(
            a,
            b,
        ),
        key_lt(a, b) ==> !key_lt(b, a) && a != b,
{
    lemma_text_total(a.first, b.first);
    lemma_text_total(a.second, b.second);
}

} // verus!
