//! Ordering by names: the code-point order of strings and its laws, and a
//! stable sort of items by a name they carry.

use vstd::prelude::*;

verus! {

/// Whether `a` comes before `b` or equals it, character by character,
/// a prefix first.
pub open spec fn chars_le(a: Seq<char>, b: Seq<char>) -> bool
    decreases a.len(),
{
    if a.len() == 0 {
        true
    } else if b.len() == 0 {
        false
    } else if a[0] != b[0] {
        a[0] < b[0]
    } else {
        chars_le(a.drop_first(), b.drop_first())
    }
}

/// Whether `a` comes before `b` or equals it.
pub fn le(a: &[char], b: &[char]) -> (r: bool)
    ensures
        r == chars_le(a@, b@),
{
    let mut i: usize = 0;
    assert(a@.skip(0) =~= a@);
    assert(b@.skip(0) =~= b@);
    while i < a.len() && i < b.len() && a[i] == b[i]
        invariant
            i <= a@.len(),
            i <= b@.len(),
            chars_le(a@, b@) == chars_le(a@.skip(i as int), b@.skip(i as int)),
        decreases a@.len() - i,
    {
        assert(a@.skip(i as int).drop_first() =~= a@.skip(i + 1));
        assert(b@.skip(i as int).drop_first() =~= b@.skip(i + 1));
        i = i + 1;
    }
    if i == a.len() {
        true
    } else if i == b.len() {
        false
    } else {
        a[i] < b[i]
    }
}

/// Whether `a` comes strictly before `b`.
pub open spec fn chars_lt(a: Seq<char>, b: Seq<char>) -> bool {
    chars_le(a, b) && a != b
}

/// Of two names, one comes before the other or equals it.
pub proof fn lemma_chars_le_total(a: Seq<char>, b: Seq<char>)
    ensures
        chars_le(a, b) || chars_le(b, a),
    decreases a.len(),
{
    if a.len() > 0 && b.len() > 0 && a[0] == b[0] {
        lemma_chars_le_total(a.drop_first(), b.drop_first());
    }
}

/// Two names that each come before or equal the other are the same name.
pub proof fn lemma_chars_le_antisymmetric(a: Seq<char>, b: Seq<char>)
    requires
        chars_le(a, b),
        chars_le(b, a),
    ensures
        a == b,
    decreases a.len(),
{
    if a.len() > 0 && b.len() > 0 {
        lemma_chars_le_antisymmetric(a.drop_first(), b.drop_first());
        assert(a =~= seq![a[0]] + a.drop_first());
        assert(b =~= seq![b[0]] + b.drop_first());
    } else if a.len() == 0 {
        assert(b.len() == 0);
        assert(a =~= b);
    }
}

/// The order of names is transitive.
pub proof fn lemma_chars_le_transitive(a: Seq<char>, b: Seq<char>, c: Seq<char>)
    requires
        chars_le(a, b),
        chars_le(b, c),
    ensures
        chars_le(a, c),
    decreases a.len(),
{
    if a.len() > 0 && b.len() > 0 && c.len() > 0 && a[0] == b[0] && b[0] == c[0] {
        lemma_chars_le_transitive(a.drop_first(), b.drop_first(), c.drop_first());
    }
}

/// A name that does not come strictly before another, and differs from
/// it, comes strictly after it.
pub proof fn lemma_chars_lt_total(a: Seq<char>, b: Seq<char>)
    requires
        !chars_lt(b, a),
        a != b,
    ensures
        chars_lt(a, b),
{
    lemma_chars_le_total(a, b);
}

/// Coming strictly before is transitive.
pub proof fn lemma_chars_lt_transitive(a: Seq<char>, b: Seq<char>, c: Seq<char>)
    requires
        chars_lt(a, b),
        chars_lt(b, c),
    ensures
        chars_lt(a, c),
{
    lemma_chars_le_transitive(a, b, c);
    if a == c {
        lemma_chars_le_antisymmetric(a, b);
    }
}

/// Whether `a` and `b` hold the same characters.
pub fn same_chars(a: &[char], b: &[char]) -> (r: bool)
    ensures
        r == (a@ == b@),
{
    if a.len() != b.len() {
        return false;
    }
    let mut i: usize = 0;
    while i < a.len()
        invariant
            i <= a@.len() == b@.len(),
            forall|k: int| 0 <= k < i ==> a@[k] == b@[k],
        decreases a@.len() - i,
    {
        if a[i] != b[i] {
            assert(a@[i as int] != b@[i as int]);
            return false;
        }
        i = i + 1;
    }
    assert(a@ =~= b@);
    true
}

/// Whether `a` comes strictly before `b`.
pub fn lt(a: &[char], b: &[char]) -> (r: bool)
    ensures
        r == chars_lt(a@, b@),
{
    le(a, b) && !same_chars(a, b)
}

/// `x` put into `sorted` after every item whose key comes before its own
/// or equals it.
pub open spec fn insert_by_key<T>(sorted: Seq<T>, x: T, key: spec_fn(T) -> Seq<char>) -> Seq<T>
    decreases sorted.len(),
{
    if sorted.len() == 0 {
        seq![x]
    } else if chars_le(key(sorted[0]), key(x)) {
        seq![sorted[0]] + insert_by_key(sorted.drop_first(), x, key)
    } else {
        seq![x] + sorted
    }
}

/// `items` sorted by key; items with the same key keep their order.
pub open spec fn sort_by_key<T>(items: Seq<T>, key: spec_fn(T) -> Seq<char>) -> Seq<T>
    decreases items.len(),
{
    if items.len() == 0 {
        Seq::empty()
    } else {
        insert_by_key(sort_by_key(items.drop_last(), key), items.last(), key)
    }
}

/// Whether the keys of `s` come in order.
pub open spec fn sorted_by_key<T>(s: Seq<T>, key: spec_fn(T) -> Seq<char>) -> bool {
    forall|i: int, j: int| 0 <= i < j < s.len() ==> chars_le(#[trigger] key(s[i]), #[trigger] key(s[j]))
}

/// Where `insert_by_key` puts an item with key `name`.
pub open spec fn insert_position<T>(sorted: Seq<T>, name: Seq<char>, key: spec_fn(T) -> Seq<char>) -> int
    decreases sorted.len(),
{
    if sorted.len() == 0 {
        0
    } else if chars_le(key(sorted[0]), name) {
        1 + insert_position(sorted.drop_first(), name, key)
    } else {
        0
    }
}

pub proof fn lemma_insert_position<T>(sorted: Seq<T>, x: T, key: spec_fn(T) -> Seq<char>)
    ensures
        0 <= insert_position(sorted, key(x), key) <= sorted.len(),
        insert_by_key(sorted, x, key) == sorted.insert(insert_position(sorted, key(x), key), x),
        forall|k: int|
            0 <= k < insert_position(sorted, key(x), key) ==> chars_le(#[trigger] key(sorted[k]), key(x)),
        insert_position(sorted, key(x), key) < sorted.len() ==> !chars_le(
            key(sorted[insert_position(sorted, key(x), key)]),
            key(x),
        ),
    decreases sorted.len(),
{
    if sorted.len() > 0 {
        lemma_insert_position(sorted.drop_first(), x, key);
        if chars_le(key(sorted[0]), key(x)) {
            let p = insert_position(sorted.drop_first(), key(x), key);
            assert(seq![sorted[0]] + sorted.drop_first().insert(p, x) =~= sorted.insert(p + 1, x));
            assert forall|k: int| 0 <= k < p + 1 implies chars_le(#[trigger] key(sorted[k]), key(x)) by {
                if k > 0 {
                    assert(sorted[k] == sorted.drop_first()[k - 1]);
                }
            }
            if p + 1 < sorted.len() {
                assert(sorted[p + 1] == sorted.drop_first()[p]);
            }
        } else {
            assert(seq![x] + sorted =~= sorted.insert(0, x));
        }
    } else {
        assert(seq![x] =~= sorted.insert(0, x));
    }
}

proof fn lemma_insert_sorted<T>(sorted: Seq<T>, x: T, key: spec_fn(T) -> Seq<char>)
    requires
        sorted_by_key(sorted, key),
    ensures
        sorted_by_key(insert_by_key(sorted, x, key), key),
        insert_by_key(sorted, x, key).to_multiset() == sorted.to_multiset().insert(x),
{
    lemma_insert_position(sorted, x, key);
    let p = insert_position(sorted, key(x), key);
    let r = sorted.insert(p, x);
    assert forall|i: int, j: int| 0 <= i < j < r.len() implies chars_le(
        #[trigger] key(r[i]),
        #[trigger] key(r[j]),
    ) by {
        if i == p {
            lemma_chars_le_total(key(x), key(sorted[p]));
            if j - 1 > p {
                assert(chars_le(key(sorted[p]), key(sorted[j - 1])));
                lemma_chars_le_transitive(key(x), key(sorted[p]), key(sorted[j - 1]));
            }
        } else if j == p {
        } else if i < p && j > p {
            assert(chars_le(key(sorted[i]), key(x)));
            assert(chars_le(key(sorted[i]), key(sorted[j - 1])));
        }
    }
    vstd::seq_lib::to_multiset_insert(sorted, p, x);
}

/// Sorting by key gives the same items, in the order of their keys.
pub proof fn lemma_sort_by_key<T>(items: Seq<T>, key: spec_fn(T) -> Seq<char>)
    ensures
        sorted_by_key(sort_by_key(items, key), key),
        sort_by_key(items, key).to_multiset() == items.to_multiset(),
    decreases items.len(),
{
    if items.len() == 0 {
        assert(sort_by_key(items, key) =~= items);
    } else {
        lemma_sort_by_key(items.drop_last(), key);
        lemma_insert_sorted(sort_by_key(items.drop_last(), key), items.last(), key);
        assert(items =~= items.drop_last().push(items.last()));
        vstd::seq_lib::to_multiset_build(items.drop_last(), items.last());
    }
}

proof fn lemma_insert_commute<T>(s: Seq<T>, u: T, v: T, key: spec_fn(T) -> Seq<char>)
    requires
        key(u) != key(v),
    ensures
        insert_by_key(insert_by_key(s, u, key), v, key) == insert_by_key(insert_by_key(s, v, key), u, key),
    decreases s.len(),
{
    lemma_chars_le_total(key(u), key(v));
    if chars_le(key(u), key(v)) && chars_le(key(v), key(u)) {
        lemma_chars_le_antisymmetric(key(u), key(v));
    }
    if s.len() == 0 {
        assert(seq![u].drop_first() =~= Seq::<T>::empty());
        assert(seq![v].drop_first() =~= Seq::<T>::empty());
        assert(insert_by_key(Seq::<T>::empty(), v, key) == seq![v]);
        assert(insert_by_key(Seq::<T>::empty(), u, key) == seq![u]);
        assert(seq![u] + seq![v] =~= seq![u, v]);
        assert(seq![v] + seq![u] =~= seq![v, u]);
    } else {
        let h = s[0];
        let rest = s.drop_first();
        let le_u = chars_le(key(h), key(u));
        let le_v = chars_le(key(h), key(v));
        lemma_chars_le_total(key(h), key(u));
        lemma_chars_le_total(key(h), key(v));
        if le_u && le_v {
            lemma_insert_commute(rest, u, v, key);
            let su = seq![h] + insert_by_key(rest, u, key);
            let sv = seq![h] + insert_by_key(rest, v, key);
            assert(su[0] == h && su.drop_first() =~= insert_by_key(rest, u, key));
            assert(sv[0] == h && sv.drop_first() =~= insert_by_key(rest, v, key));
        } else if le_u && !le_v {
            lemma_chars_le_transitive(key(v), key(h), key(u));
            let su = seq![h] + insert_by_key(rest, u, key);
            assert(su[0] == h);
            let sv = seq![v] + s;
            assert(sv[0] == v && sv.drop_first() =~= s);
            assert(seq![v] + su =~= seq![v] + (seq![h] + insert_by_key(rest, u, key)));
        } else if !le_u && le_v {
            lemma_chars_le_transitive(key(u), key(h), key(v));
            let sv = seq![h] + insert_by_key(rest, v, key);
            assert(sv[0] == h);
            let su = seq![u] + s;
            assert(su[0] == u && su.drop_first() =~= s);
        } else {
            let su = seq![u] + s;
            let sv = seq![v] + s;
            assert(su[0] == u && su.drop_first() =~= s);
            assert(sv[0] == v && sv.drop_first() =~= s);
            if chars_le(key(u), key(v)) {
                assert(seq![u] + (seq![v] + s) =~= seq![u] + seq![v] + s);
            } else {
                assert(seq![v] + (seq![u] + s) =~= seq![v] + seq![u] + s);
            }
        }
    }
}

/// `items` with the items at `i` and `i + 1` swapped.
pub open spec fn swap_next<T>(items: Seq<T>, i: int) -> Seq<T> {
    items.update(i, items[i + 1]).update(i + 1, items[i])
}

/// Two neighbouring items with different keys may be swapped before
/// sorting: the result is the same.
pub proof fn lemma_sort_swap<T>(items: Seq<T>, i: int, key: spec_fn(T) -> Seq<char>)
    requires
        0 <= i,
        i + 1 < items.len(),
        key(items[i]) != key(items[i + 1]),
    ensures
        sort_by_key(swap_next(items, i), key) == sort_by_key(items, key),
    decreases items.len(),
{
    let sw = swap_next(items, i);
    if i + 2 == items.len() {
        let base = items.drop_last().drop_last();
        assert(sw.drop_last().drop_last() =~= base);
        assert(items.drop_last().last() == items[i]);
        assert(sw.drop_last().last() == items[i + 1]);
        assert(sort_by_key(items.drop_last(), key) == insert_by_key(sort_by_key(base, key), items[i], key));
        assert(sort_by_key(sw.drop_last(), key) == insert_by_key(sort_by_key(base, key), items[i + 1], key));
        lemma_insert_commute(sort_by_key(base, key), items[i], items[i + 1], key);
    } else {
        lemma_sort_swap(items.drop_last(), i, key);
        assert(sw.drop_last() =~= swap_next(items.drop_last(), i));
        assert(sw.last() == items.last());
    }
}

/// Mapping the items with a function that keeps their keys commutes with
/// putting one in.
proof fn lemma_insert_map<A, B>(
    sorted: Seq<A>,
    x: A,
    f: spec_fn(A) -> B,
    ka: spec_fn(A) -> Seq<char>,
    kb: spec_fn(B) -> Seq<char>,
)
    requires
        forall|a: A| #[trigger] kb(f(a)) == ka(a),
    ensures
        insert_by_key(sorted, x, ka).map_values(f) == insert_by_key(sorted.map_values(f), f(x), kb),
    decreases sorted.len(),
{
    if sorted.len() > 0 {
        lemma_insert_map(sorted.drop_first(), x, f, ka, kb);
        assert(sorted.map_values(f).drop_first() =~= sorted.drop_first().map_values(f));
        assert(kb(f(sorted[0])) == ka(sorted[0]));
        assert(kb(f(x)) == ka(x));
        if chars_le(ka(sorted[0]), ka(x)) {
            assert((seq![sorted[0]] + insert_by_key(sorted.drop_first(), x, ka)).map_values(f) =~= seq![
                f(sorted[0]),
            ] + insert_by_key(sorted.drop_first(), x, ka).map_values(f));
        } else {
            assert((seq![x] + sorted).map_values(f) =~= seq![f(x)] + sorted.map_values(f));
        }
    } else {
        assert(seq![x].map_values(f) =~= seq![f(x)]);
    }
}

/// Mapping the items with a function that keeps their keys commutes with
/// sorting them.
pub proof fn lemma_sort_map<A, B>(
    items: Seq<A>,
    f: spec_fn(A) -> B,
    ka: spec_fn(A) -> Seq<char>,
    kb: spec_fn(B) -> Seq<char>,
)
    requires
        forall|a: A| #[trigger] kb(f(a)) == ka(a),
    ensures
        sort_by_key(items, ka).map_values(f) == sort_by_key(items.map_values(f), kb),
    decreases items.len(),
{
    if items.len() > 0 {
        lemma_sort_map(items.drop_last(), f, ka, kb);
        assert(items.map_values(f).drop_last() =~= items.drop_last().map_values(f));
        lemma_insert_map(sort_by_key(items.drop_last(), ka), items.last(), f, ka, kb);
    } else {
        assert(sort_by_key(items, ka).map_values(f) =~= Seq::<B>::empty());
    }
}

/// The items of `s` that `pred` keeps, in order.
pub open spec fn keep<T>(s: Seq<T>, pred: spec_fn(T) -> bool) -> Seq<T>
    decreases s.len(),
{
    if s.len() == 0 {
        Seq::empty()
    } else if pred(s[0]) {
        seq![s[0]] + keep(s.drop_first(), pred)
    } else {
        keep(s.drop_first(), pred)
    }
}

/// Keeping items of two lists put together keeps those of each.
pub proof fn lemma_keep_append<T>(a: Seq<T>, b: Seq<T>, pred: spec_fn(T) -> bool)
    ensures
        keep(a + b, pred) == keep(a, pred) + keep(b, pred),
    decreases a.len(),
{
    if a.len() == 0 {
        assert(a + b =~= b);
        assert(keep(a, pred) + keep(b, pred) =~= keep(b, pred));
    } else {
        assert((a + b).drop_first() =~= a.drop_first() + b);
        assert((a + b)[0] == a[0]);
        lemma_keep_append(a.drop_first(), b, pred);
        if pred(a[0]) {
            assert(seq![a[0]] + (keep(a.drop_first(), pred) + keep(b, pred)) =~= (seq![a[0]] + keep(
                a.drop_first(),
                pred,
            )) + keep(b, pred));
        }
    }
}

/// Where the `i`-th kept item of `s` stands in `s`.
pub open spec fn kept_at<T>(s: Seq<T>, pred: spec_fn(T) -> bool, i: int) -> int
    decreases s.len(),
{
    if s.len() == 0 {
        0
    } else if pred(s[0]) {
        if i <= 0 {
            0
        } else {
            1 + kept_at(s.drop_first(), pred, i - 1)
        }
    } else {
        1 + kept_at(s.drop_first(), pred, i)
    }
}

/// Each kept item is an item of the list that the predicate keeps, and the
/// kept items stand in their order in the list.
pub proof fn lemma_keep_order<T>(s: Seq<T>, pred: spec_fn(T) -> bool)
    ensures
        keep(s, pred).len() <= s.len(),
        forall|i: int|
            0 <= i < keep(s, pred).len() ==> 0 <= #[trigger] kept_at(s, pred, i) < s.len()
                && keep(s, pred)[i] == s[kept_at(s, pred, i)] && pred(s[kept_at(s, pred, i)]),
        forall|i: int, j: int|
            0 <= i < j < keep(s, pred).len() ==> #[trigger] kept_at(s, pred, i) < #[trigger] kept_at(
                s,
                pred,
                j,
            ),
    decreases s.len(),
{
    if s.len() > 0 {
        let r = s.drop_first();
        lemma_keep_order(r, pred);
        let k = keep(s, pred);
        let kr = keep(r, pred);
        if pred(s[0]) {
            assert(k == seq![s[0]] + kr);
            assert forall|i: int| 0 <= i < k.len() implies 0 <= #[trigger] kept_at(s, pred, i) < s.len()
                && k[i] == s[kept_at(s, pred, i)] && pred(s[kept_at(s, pred, i)]) by {
                if i > 0 {
                    assert(k[i] == kr[i - 1]);
                    assert(r[kept_at(r, pred, i - 1)] == s[kept_at(r, pred, i - 1) + 1]);
                }
            }
            assert forall|i: int, j: int| 0 <= i < j < k.len() implies #[trigger] kept_at(s, pred, i)
                < #[trigger] kept_at(s, pred, j) by {
                if i > 0 {
                    assert(kept_at(r, pred, i - 1) < kept_at(r, pred, j - 1));
                } else {
                    assert(0 <= kept_at(r, pred, j - 1));
                }
            }
        } else {
            assert(k == kr);
            assert forall|i: int| 0 <= i < k.len() implies 0 <= #[trigger] kept_at(s, pred, i) < s.len()
                && k[i] == s[kept_at(s, pred, i)] && pred(s[kept_at(s, pred, i)]) by {
                assert(r[kept_at(r, pred, i)] == s[kept_at(r, pred, i) + 1]);
            }
            assert forall|i: int, j: int| 0 <= i < j < k.len() implies #[trigger] kept_at(s, pred, i)
                < #[trigger] kept_at(s, pred, j) by {
                assert(kept_at(r, pred, i) < kept_at(r, pred, j));
            }
        }
    } else {
        assert(keep(s, pred) == Seq::<T>::empty());
    }
}

/// An item that the predicate keeps is among the kept items.
pub proof fn lemma_keep_contains<T>(s: Seq<T>, pred: spec_fn(T) -> bool, x: int)
    requires
        0 <= x < s.len(),
        pred(s[x]),
    ensures
        keep(s, pred).contains(s[x]),
    decreases s.len(),
{
    if x == 0 {
        assert(keep(s, pred)[0] == s[0]);
    } else {
        lemma_keep_contains(s.drop_first(), pred, x - 1);
        assert(s.drop_first()[x - 1] == s[x]);
        let kr = keep(s.drop_first(), pred);
        let i = choose|i: int| 0 <= i < kr.len() && kr[i] == s[x];
        if pred(s[0]) {
            assert(keep(s, pred)[i + 1] == kr[i]);
        }
    }
}

proof fn lemma_keep_insert<T>(sorted: Seq<T>, x: T, key: spec_fn(T) -> Seq<char>, pred: spec_fn(T) -> bool)
    requires
        sorted_by_key(sorted, key),
    ensures
        keep(insert_by_key(sorted, x, key), pred) == if pred(x) {
            insert_by_key(keep(sorted, pred), x, key)
        } else {
            keep(sorted, pred)
        },
    decreases sorted.len(),
{
    if sorted.len() == 0 {
        assert(seq![x].drop_first() =~= Seq::<T>::empty());
        assert(keep(Seq::<T>::empty(), pred) == Seq::<T>::empty());
        assert(keep(sorted, pred) == Seq::<T>::empty());
        assert(seq![x][0] == x);
        if pred(x) {
            assert(seq![x] + Seq::<T>::empty() =~= seq![x]);
        }
    } else {
        let rest = sorted.drop_first();
        assert(sorted_by_key(rest, key)) by {
            assert forall|i: int, j: int| 0 <= i < j < rest.len() implies chars_le(
                #[trigger] key(rest[i]),
                #[trigger] key(rest[j]),
            ) by {
                assert(rest[i] == sorted[i + 1] && rest[j] == sorted[j + 1]);
            }
        }
        if chars_le(key(sorted[0]), key(x)) {
            lemma_keep_insert(rest, x, key, pred);
            let ins = seq![sorted[0]] + insert_by_key(rest, x, key);
            assert(ins[0] == sorted[0]);
            assert(ins.drop_first() =~= insert_by_key(rest, x, key));
            if pred(sorted[0]) && pred(x) {
                let kp = seq![sorted[0]] + keep(rest, pred);
                assert(kp[0] == sorted[0]);
                assert(kp.drop_first() =~= keep(rest, pred));
            }
        } else {
            let ins = seq![x] + sorted;
            assert(ins[0] == x);
            assert(ins.drop_first() =~= sorted);
            if pred(x) {
                let ks = keep(sorted, pred);
                lemma_keep_order(sorted, pred);
                if ks.len() > 0 {
                    let a = kept_at(sorted, pred, 0);
                    assert(0 <= a < sorted.len() && ks[0] == sorted[a]);
                    if chars_le(key(ks[0]), key(x)) {
                        if a > 0 {
                            assert(chars_le(key(sorted[0]), key(sorted[a])));
                            lemma_chars_le_transitive(key(sorted[0]), key(sorted[a]), key(x));
                        }
                    }
                    assert(!chars_le(key(ks[0]), key(x)));
                    assert(insert_by_key(ks, x, key) == seq![x] + ks);
                } else {
                    assert(ks =~= Seq::<T>::empty());
                    assert(seq![x] + ks =~= seq![x]);
                }
            }
        }
    }
}

/// Keeping some items commutes with sorting them.
pub proof fn lemma_keep_sort<T>(items: Seq<T>, key: spec_fn(T) -> Seq<char>, pred: spec_fn(T) -> bool)
    ensures
        keep(sort_by_key(items, key), pred) == sort_by_key(keep(items, pred), key),
    decreases items.len(),
{
    if items.len() == 0 {
        assert(keep(items, pred) =~= Seq::<T>::empty());
    } else {
        let init = items.drop_last();
        let y = items.last();
        lemma_keep_sort(init, key, pred);
        lemma_sort_by_key(init, key);
        lemma_keep_insert(sort_by_key(init, key), y, key, pred);
        assert(items =~= init + seq![y]);
        lemma_keep_append(init, seq![y], pred);
        assert(seq![y].drop_first() =~= Seq::<T>::empty());
        assert(keep(Seq::<T>::empty(), pred) == Seq::<T>::empty());
        assert(seq![y][0] == y);
        if pred(y) {
            assert(keep(seq![y], pred) =~= seq![y]);
            let k = keep(init, pred) + seq![y];
            assert(k.drop_last() =~= keep(init, pred));
            assert(k.last() == y);
        } else {
            assert(keep(seq![y], pred) =~= Seq::<T>::empty());
            assert(keep(init, pred) + Seq::<T>::empty() =~= keep(init, pred));
        }
    }
}

} // verus!
