//! The order in which listings sort: by the components of a path, ties
//! broken by characters; and a stable sort that keeps the order of entries
//! that sort alike.
use vstd::prelude::*;
use vstd::seq_lib::to_multiset_insert;
use crate::path::{
    Comp, Order, PathComponent, chars_before, comps_before, comps_view, compare_chars,
    compare_components, lemma_chars_before_irreflexive, lemma_chars_before_total,
    lemma_chars_before_transitive, lemma_comps_before_irreflexive, lemma_comps_before_total,
    lemma_comps_before_transitive,
};

verus! {

/// What a value sorts by: the components of a path first, then characters.
pub struct SortKey {
    pub comps: Seq<Comp>,
    pub tie: Seq<char>,
}

/// The key `a` sorts strictly before the key `b`.
pub open spec fn key_before(a: SortKey, b: SortKey) -> bool {
    comps_before(a.comps, b.comps) || (a.comps == b.comps && chars_before(a.tie, b.tie))
}

/// A sort key, held by the program.
pub struct OrderKey {
    pub comps: Vec<PathComponent>,
    pub tie: Vec<char>,
}

impl View for OrderKey {
    type V = SortKey;

    open spec fn view(&self) -> SortKey {
        SortKey { comps: comps_view(self.comps@), tie: self.tie@ }
    }
}

/// Whether the key `a` sorts strictly before the key `b`.
pub fn key_precedes(a: &OrderKey, b: &OrderKey) -> (r: bool)
    ensures
        r == key_before(a@, b@),
{
    match compare_components(&a.comps, &b.comps) {
        Order::Less => true,
        Order::Greater => false,
        Order::Equal => match compare_chars(&a.tie, &b.tie) {
            Order::Less => true,
            _ => false,
        },
    }
}

/// No key sorts before itself.
pub proof fn lemma_key_before_irreflexive(a: SortKey)
    ensures
        !key_before(a, a),
{
    lemma_comps_before_irreflexive(a.comps);
    lemma_chars_before_irreflexive(a.tie);
}

/// Of two different keys exactly one sorts before the other, and of two
/// equal ones neither.
pub proof fn lemma_key_before_total(a: SortKey, b: SortKey)
    ensures
        a != b ==> key_before(a, b) || key_before(b, a),
        !(key_before(a, b) && key_before(b, a)),
{
    lemma_comps_before_total(a.comps, b.comps);
    lemma_chars_before_total(a.tie, b.tie);
}

/// The order of keys is transitive.
pub proof fn lemma_key_before_transitive(a: SortKey, b: SortKey, c: SortKey)
    requires
        key_before(a, b),
        key_before(b, c),
    ensures
        key_before(a, c),
{
    lemma_comps_before_total(a.comps, b.comps);
    lemma_comps_before_total(b.comps, c.comps);
    lemma_comps_before_total(a.comps, c.comps);
    if comps_before(a.comps, b.comps) && comps_before(b.comps, c.comps) {
        lemma_comps_before_transitive(a.comps, b.comps, c.comps);
    } else if a.comps == b.comps && b.comps == c.comps {
        lemma_chars_before_transitive(a.tie, b.tie, c.tie);
    }
}

/// A value that sorts by a key.
pub trait Sortable: Sized {
    /// The key by which the value sorts.
    spec fn sort_key(&self) -> SortKey;

    /// The key by which the value sorts, held by the program.
    fn order_key(&self) -> (k: OrderKey)
        ensures
            k@ == self.sort_key(),
    ;
}

/// The key of a sortable value, as a function.
pub open spec fn key_of<T: Sortable>() -> spec_fn(T) -> SortKey {
    |x: T| x.sort_key()
}

/// `a` sorts strictly before `b` by the keys that `key` gives them.
pub open spec fn precedes<T>(a: T, b: T, key: spec_fn(T) -> SortKey) -> bool {
    key_before(key(a), key(b))
}

/// Where a stable sort inserts `x` into the sorted `t`: after every entry
/// that `x` does not sort before.
pub open spec fn insert_pos<T>(t: Seq<T>, x: T, key: spec_fn(T) -> SortKey) -> int
    decreases t.len(),
{
    if t.len() == 0 {
        0
    } else if precedes(x, t.last(), key) {
        insert_pos(t.drop_last(), x, key)
    } else {
        t.len() as int
    }
}

/// `s` sorted stably by `key`: entries that sort alike keep their order.
pub open spec fn stable_sorted<T>(s: Seq<T>, key: spec_fn(T) -> SortKey) -> Seq<T>
    decreases s.len(),
{
    if s.len() == 0 {
        seq![]
    } else {
        let t = stable_sorted(s.drop_last(), key);
        t.insert(insert_pos(t, s.last(), key), s.last())
    }
}

/// The place where `x` goes into the sorted `t`: every entry before it
/// sorts no later than `x`, every entry from it on sorts after `x`.
pub proof fn lemma_insert_pos_at<T>(t: Seq<T>, x: T, key: spec_fn(T) -> SortKey, p: int)
    requires
        0 <= p <= t.len(),
        forall|k: int| 0 <= k < p ==> !precedes(x, #[trigger] t[k], key),
        forall|k: int| p <= k < t.len() ==> precedes(x, #[trigger] t[k], key),
    ensures
        insert_pos(t, x, key) == p,
    decreases t.len(),
{
    if t.len() > 0 {
        if precedes(x, t.last(), key) {
            assert(p <= t.len() - 1) by {
                if p == t.len() {
                    assert(!precedes(x, t[t.len() - 1], key));
                }
            }
            let d = t.drop_last();
            assert forall|k: int| 0 <= k < p implies !precedes(x, #[trigger] d[k], key) by {
                assert(d[k] == t[k]);
            }
            assert forall|k: int| p <= k < d.len() implies precedes(x, #[trigger] d[k], key) by {
                assert(d[k] == t[k]);
            }
            lemma_insert_pos_at(d, x, key, p);
        } else {
            assert(p == t.len()) by {
                if p < t.len() {
                    assert(precedes(x, t[t.len() - 1], key));
                }
            }
        }
    }
}

/// A key that sorts before a second sorts before every key that the second
/// does not sort after.
pub proof fn lemma_key_before_not_after(a: SortKey, b: SortKey, c: SortKey)
    requires
        key_before(a, b),
        !key_before(c, b),
    ensures
        key_before(a, c),
{
    lemma_key_before_total(b, c);
    if b != c {
        lemma_key_before_transitive(a, b, c);
    }
}

/// `v` sorted stably by the keys of its entries.
pub fn sort_stable<T: Sortable>(v: Vec<T>) -> (r: Vec<T>)
    ensures
        r@ == stable_sorted(v@, key_of::<T>()),
{
    let ghost key = key_of::<T>();
    let ghost orig = v@;
    let n = v.len();
    let mut input = v;
    let mut pending: Vec<T> = Vec::new();
    while input.len() > 0
        invariant
            n == orig.len(),
            input@.len() <= n,
            input@ == orig.take(input@.len() as int),
            pending@.len() == n - input@.len(),
            forall|k: int| 0 <= k < pending@.len() ==> #[trigger] pending@[k] == orig[n - 1 - k],
        decreases input@.len(),
    {
        let ghost before = input@;
        let x = input.pop().unwrap();
        assert(x == orig[before.len() - 1]);
        assert(input@ =~= orig.take(input@.len() as int));
        pending.push(x);
    }
    let mut r: Vec<T> = Vec::new();
    let mut keys: Vec<OrderKey> = Vec::new();
    let mut i: usize = 0;
    assert(orig.take(0) =~= Seq::<T>::empty());
    while i < n
        invariant
            key == key_of::<T>(),
            n == orig.len(),
            i <= n,
            pending@.len() == n - i,
            forall|k: int| 0 <= k < pending@.len() ==> #[trigger] pending@[k] == orig[n - 1 - k],
            r@ == stable_sorted(orig.take(i as int), key),
            keys@.len() == r@.len(),
            forall|k: int| 0 <= k < keys@.len() ==> #[trigger] keys@[k]@ == key(r@[k]),
        decreases n - i,
    {
        let ghost before = pending@;
        let x = pending.pop().unwrap();
        assert(x == orig[i as int]);
        assert forall|k: int| 0 <= k < pending@.len() implies #[trigger] pending@[k] == orig[n - 1
            - k] by {
            assert(pending@[k] == before[k]);
        }
        let kx = x.order_key();
        proof {
            lemma_stable_sorted_is_sorted(orig.take(i as int), key);
        }
        let mut lo: usize = 0;
        let mut hi: usize = r.len();
        while lo < hi
            invariant
                key == key_of::<T>(),
                lo <= hi <= r@.len(),
                keys@.len() == r@.len(),
                forall|k: int| 0 <= k < keys@.len() ==> #[trigger] keys@[k]@ == key(r@[k]),
                kx@ == key(x),
                is_sorted(r@, key),
                forall|k: int| 0 <= k < lo ==> !precedes(x, #[trigger] r@[k], key),
                forall|k: int| hi <= k < r@.len() ==> precedes(x, #[trigger] r@[k], key),
            decreases hi - lo,
        {
            let mid = lo + (hi - lo) / 2;
            if key_precedes(&kx, &keys[mid]) {
                assert forall|k: int| mid <= k < r@.len() implies precedes(x, #[trigger] r@[k], key) by {
                    if k > mid {
                        assert(!precedes(r@[k], r@[mid as int], key));
                        lemma_key_before_not_after(key(x), key(r@[mid as int]), key(r@[k]));
                    }
                }
                hi = mid;
            } else {
                assert forall|k: int| 0 <= k < mid + 1 implies !precedes(x, #[trigger] r@[k], key) by {
                    if k < mid {
                        assert(!precedes(r@[mid as int], r@[k], key));
                        lemma_key_not_before_transitive(key(r@[k]), key(r@[mid as int]), key(x));
                    }
                }
                lo = mid + 1;
            }
        }
        proof {
            lemma_insert_pos_at(r@, x, key, lo as int);
        }
        let ghost old_r = r@;
        let ghost old_keys = keys@;
        r.insert(lo, x);
        keys.insert(lo, kx);
        assert(orig.take(i + 1).drop_last() =~= orig.take(i as int));
        assert(orig.take(i + 1).last() == x);
        assert forall|k: int| 0 <= k < keys@.len() implies #[trigger] keys@[k]@ == key(r@[k]) by {
            if k < lo {
                assert(keys@[k] == old_keys[k]);
                assert(r@[k] == old_r[k]);
            } else if k > lo {
                assert(keys@[k] == old_keys[k - 1]);
                assert(r@[k] == old_r[k - 1]);
            }
        }
        i += 1;
    }
    assert(orig.take(n as int) =~= orig);
    r
}

/// Every entry of `s` sorts no earlier than the entries before it.
pub open spec fn is_sorted<T>(s: Seq<T>, key: spec_fn(T) -> SortKey) -> bool {
    forall|i: int, j: int| 0 <= i < j < s.len() ==> !precedes(#[trigger] s[j], #[trigger] s[i], key)
}

/// A key that sorts no earlier than a second, which sorts no earlier than
/// a third, sorts no earlier than the third.
pub proof fn lemma_key_not_before_transitive(a: SortKey, b: SortKey, c: SortKey)
    requires
        !key_before(b, a),
        !key_before(c, b),
    ensures
        !key_before(c, a),
{
    lemma_key_before_total(a, b);
    lemma_key_before_total(b, c);
    lemma_key_before_total(a, c);
    if key_before(c, a) {
        if a == b {
            assert(key_before(c, b));
        } else if b == c {
            assert(key_before(b, a));
        } else {
            lemma_key_before_transitive(a, b, c);
        }
    }
}

/// The place where a stable sort inserts `x`: everything after it sorts
/// after `x`, and the entry just before it does not.
pub proof fn lemma_insert_pos<T>(t: Seq<T>, x: T, key: spec_fn(T) -> SortKey)
    ensures
        0 <= insert_pos(t, x, key) <= t.len(),
        forall|k: int| insert_pos(t, x, key) <= k < t.len() ==> precedes(x, #[trigger] t[k], key),
        insert_pos(t, x, key) > 0 ==> !precedes(x, t[insert_pos(t, x, key) - 1], key),
    decreases t.len(),
{
    if t.len() > 0 && precedes(x, t.last(), key) {
        lemma_insert_pos(t.drop_last(), x, key);
        assert forall|k: int| insert_pos(t, x, key) <= k < t.len() implies precedes(
            x,
            #[trigger] t[k],
            key,
        ) by {
            if k < t.len() - 1 {
                assert(t[k] == t.drop_last()[k]);
            }
        }
    }
}

/// A stable sort only reorders: it keeps every entry as often as it comes.
pub proof fn lemma_stable_sorted_permutation<T>(s: Seq<T>, key: spec_fn(T) -> SortKey)
    ensures
        stable_sorted(s, key).len() == s.len(),
        stable_sorted(s, key).to_multiset() == s.to_multiset(),
    decreases s.len(),
{
    broadcast use vstd::seq_lib::group_to_multiset_ensures;

    if s.len() > 0 {
        lemma_stable_sorted_permutation(s.drop_last(), key);
        let t = stable_sorted(s.drop_last(), key);
        lemma_insert_pos(t, s.last(), key);
        to_multiset_insert(t, insert_pos(t, s.last(), key), s.last());
        assert(s =~= s.drop_last().push(s.last()));
    }
}

/// A stable sort leaves its entries sorted.
pub proof fn lemma_stable_sorted_is_sorted<T>(s: Seq<T>, key: spec_fn(T) -> SortKey)
    ensures
        is_sorted(stable_sorted(s, key), key),
    decreases s.len(),
{
    if s.len() > 0 {
        lemma_stable_sorted_is_sorted(s.drop_last(), key);
        lemma_stable_sorted_permutation(s.drop_last(), key);
        let t = stable_sorted(s.drop_last(), key);
        let x = s.last();
        let p = insert_pos(t, x, key);
        lemma_insert_pos(t, x, key);
        let u = t.insert(p, x);
        assert(u == stable_sorted(s, key));
        assert forall|i: int, j: int| 0 <= i < j < u.len() implies !precedes(
            #[trigger] u[j],
            #[trigger] u[i],
            key,
        ) by {
            if j < p {
                assert(u[i] == t[i] && u[j] == t[j]);
            } else if i > p {
                assert(u[i] == t[i - 1] && u[j] == t[j - 1]);
            } else if i < p && j > p {
                assert(u[i] == t[i] && u[j] == t[j - 1]);
            } else if i == p {
                assert(u[j] == t[j - 1]);
                assert(precedes(x, t[j - 1], key));
                lemma_key_before_total(key(x), key(t[j - 1]));
            } else {
                assert(j == p && u[j] == x && u[i] == t[i]);
                assert(!precedes(x, t[p - 1], key));
                if i < p - 1 {
                    assert(!precedes(t[p - 1], t[i], key));
                } else {
                    lemma_key_before_irreflexive(key(t[i]));
                }
                lemma_key_not_before_transitive(key(t[i]), key(t[p - 1]), key(x));
            }
        }
    }
}

/// A stable sort holds exactly the entries of what it sorts.
pub proof fn lemma_stable_sorted_contains<T>(s: Seq<T>, key: spec_fn(T) -> SortKey, x: T)
    ensures
        stable_sorted(s, key).contains(x) == s.contains(x),
{
    broadcast use vstd::seq_lib::group_to_multiset_ensures;

    lemma_stable_sorted_permutation(s, key);
    assert(stable_sorted(s, key).to_multiset().count(x) == s.to_multiset().count(x));
}

/// Keeping some of the entries of a sorted sequence leaves them sorted.
pub proof fn lemma_filter_keeps_sorted<T>(s: Seq<T>, pred: spec_fn(T) -> bool, key: spec_fn(T) -> SortKey)
    requires
        is_sorted(s, key),
    ensures
        is_sorted(s.filter(pred), key),
    decreases s.len(),
{
    reveal(Seq::filter);
    if s.len() > 0 {
        let rest = s.drop_last();
        assert forall|i: int, j: int| 0 <= i < j < rest.len() implies !precedes(
            #[trigger] rest[j],
            #[trigger] rest[i],
            key,
        ) by {
            assert(rest[i] == s[i] && rest[j] == s[j]);
        }
        lemma_filter_keeps_sorted(rest, pred, key);
        let f = rest.filter(pred);
        if pred(s.last()) {
            let g = f.push(s.last());
            assert forall|i: int, j: int| 0 <= i < j < g.len() implies !precedes(
                #[trigger] g[j],
                #[trigger] g[i],
                key,
            ) by {
                if j == f.len() {
                    assert(f.contains(f[i]));
                    rest.lemma_filter_contains_rev(pred, f[i]);
                    let k = choose|k: int| 0 <= k < rest.len() && rest[k] == f[i];
                    assert(s[k] == f[i]);
                    assert(!precedes(s[s.len() - 1], s[k], key));
                } else {
                    assert(g[i] == f[i] && g[j] == f[j]);
                }
            }
        }
    }
}

/// A stable sort leaves a sorted sequence as it is: entries that sort
/// alike keep their order.
pub proof fn law_sorted_stays<T>(s: Seq<T>, key: spec_fn(T) -> SortKey)
    requires
        is_sorted(s, key),
    ensures
        stable_sorted(s, key) == s,
    decreases s.len(),
{
    if s.len() > 0 {
        let d = s.drop_last();
        assert forall|i: int, j: int| 0 <= i < j < d.len() implies !precedes(
            #[trigger] d[j],
            #[trigger] d[i],
            key,
        ) by {
            assert(d[i] == s[i] && d[j] == s[j]);
        }
        law_sorted_stays(d, key);
        if d.len() > 0 {
            assert(!precedes(s[s.len() - 1], s[s.len() - 2], key));
        }
        assert(d.insert(d.len() as int, s.last()) =~= s);
    }
}

/// Sorting twice sorts as once.
pub proof fn law_sort_idempotent<T>(s: Seq<T>, key: spec_fn(T) -> SortKey)
    ensures
        stable_sorted(stable_sorted(s, key), key) == stable_sorted(s, key),
{
    lemma_stable_sorted_is_sorted(s, key);
    law_sorted_stays(stable_sorted(s, key), key);
}

/// Keeping the entries that pass a stricter test keeps what the looser
/// test keeps, less what the stricter one drops.
pub proof fn lemma_filter_of_filter<T>(s: Seq<T>, loose: spec_fn(T) -> bool, strict: spec_fn(T) -> bool)
    requires
        forall|x: T| #[trigger] strict(x) ==> loose(x),
    ensures
        s.filter(strict) == s.filter(loose).filter(strict),
    decreases s.len(),
{
    reveal(Seq::filter);
    if s.len() > 0 {
        lemma_filter_of_filter(s.drop_last(), loose, strict);
        let f = s.drop_last().filter(loose);
        if loose(s.last()) {
            assert(f.push(s.last()).drop_last() =~= f);
        }
    }
}

/// Keeping the entries that pass a test every entry passes keeps them all.
pub proof fn lemma_filter_all<T>(s: Seq<T>, pred: spec_fn(T) -> bool)
    requires
        forall|i: int| 0 <= i < s.len() ==> #[trigger] pred(s[i]),
    ensures
        s.filter(pred) == s,
    decreases s.len(),
{
    reveal(Seq::filter);
    if s.len() > 0 {
        let d = s.drop_last();
        assert forall|i: int| 0 <= i < d.len() implies #[trigger] pred(d[i]) by {
            assert(d[i] == s[i]);
        }
        lemma_filter_all(d, pred);
        assert(pred(s[s.len() - 1]));
        assert(d.push(s.last()) =~= s);
    }
}

/// Every entry that a stable sort puts before the place where it inserts
/// `x` sorts no later than `x`.
proof fn lemma_before_insert_pos<T>(t: Seq<T>, x: T, key: spec_fn(T) -> SortKey, j: int)
    requires
        is_sorted(t, key),
        0 <= j < insert_pos(t, x, key),
    ensures
        !precedes(x, t[j], key),
{
    lemma_insert_pos(t, x, key);
    let p = insert_pos(t, x, key);
    if j < p - 1 {
        assert(!precedes(t[p - 1], t[j], key));
        lemma_key_not_before_transitive(key(t[j]), key(t[p - 1]), key(x));
    }
}

/// Sorting stably and then keeping the entries that pass a test gives what
/// keeping them and then sorting gives.
pub proof fn lemma_sort_filter_commute<T>(s: Seq<T>, pred: spec_fn(T) -> bool, key: spec_fn(T) -> SortKey)
    ensures
        stable_sorted(s.filter(pred), key) == stable_sorted(s, key).filter(pred),
    decreases s.len(),
{
    reveal(Seq::filter);
    if s.len() == 0 {
        assert(stable_sorted(s, key) =~= Seq::<T>::empty());
    } else {
        let d = s.drop_last();
        let x = s.last();
        lemma_sort_filter_commute(d, pred, key);
        let t = stable_sorted(d, key);
        lemma_stable_sorted_is_sorted(d, key);
        lemma_insert_pos(t, x, key);
        let p0 = insert_pos(t, x, key);
        let a = t.take(p0);
        let b = t.skip(p0);
        assert(t =~= a + b);
        assert(t.insert(p0, x) =~= a + (seq![x] + b));
        Seq::filter_distributes_over_add(a, b, pred);
        Seq::filter_distributes_over_add(a, seq![x] + b, pred);
        Seq::filter_distributes_over_add(seq![x], b, pred);
        assert(seq![x].drop_last() =~= Seq::<T>::empty());
        assert(seq![x].last() == x);
        assert(Seq::<T>::empty().filter(pred) =~= Seq::<T>::empty());
        if !pred(x) {
            assert(s.filter(pred) == d.filter(pred));
            assert(seq![x].filter(pred) =~= Seq::<T>::empty());
            assert(t.insert(p0, x).filter(pred) =~= t.filter(pred));
        } else {
            assert(s.filter(pred) == d.filter(pred).push(x));
            assert(seq![x].filter(pred) =~= seq![x]);
            let u = t.filter(pred);
            let fa = a.filter(pred);
            let fb = b.filter(pred);
            assert(u == fa + fb);
            let q = fa.len() as int;
            assert forall|k: int| 0 <= k < q implies !precedes(x, #[trigger] u[k], key) by {
                assert(u[k] == fa[k]);
                assert(fa.contains(fa[k]));
                a.lemma_filter_contains_rev(pred, fa[k]);
                let j = choose|j: int| 0 <= j < a.len() && a[j] == fa[k];
                assert(a[j] == t[j]);
                lemma_before_insert_pos(t, x, key, j);
            }
            assert forall|k: int| q <= k < u.len() implies precedes(x, #[trigger] u[k], key) by {
                assert(u[k] == fb[k - q]);
                assert(fb.contains(fb[k - q]));
                b.lemma_filter_contains_rev(pred, fb[k - q]);
                let j = choose|j: int| 0 <= j < b.len() && b[j] == fb[k - q];
                assert(b[j] == t[p0 + j]);
            }
            lemma_insert_pos_at(u, x, key, q);
            assert(s.filter(pred).drop_last() =~= d.filter(pred));
            assert(u.insert(q, x) =~= fa + (seq![x] + fb));
        }
    }
}

/// Two sorted sequences with the same entries, where no two different
/// entries share a key, are the same.
pub proof fn lemma_sorted_unique<T>(x: Seq<T>, y: Seq<T>, key: spec_fn(T) -> SortKey)
    requires
        is_sorted(x, key),
        is_sorted(y, key),
        x.to_multiset() == y.to_multiset(),
        forall|a: T, b: T| x.contains(a) && x.contains(b) && key(a) == key(b) ==> a == b,
    ensures
        x == y,
    decreases x.len(),
{
    broadcast use vstd::seq_lib::group_to_multiset_ensures;

    x.to_multiset_ensures();
    y.to_multiset_ensures();
    assert(x.len() == y.len());
    if x.len() == 0 {
        assert(x =~= y);
    } else {
        let n = x.len() - 1;
        let a = x.last();
        let b = y.last();
        assert(x.to_multiset().count(a) > 0);
        assert(y.contains(a));
        assert(y.to_multiset().count(b) > 0);
        assert(x.contains(b));
        let i = choose|i: int| 0 <= i < x.len() && x[i] == b;
        let j = choose|j: int| 0 <= j < y.len() && y[j] == a;
        if i < n {
            assert(!precedes(x[n], x[i], key));
        } else {
            lemma_key_before_irreflexive(key(a));
        }
        if j < n {
            assert(!precedes(y[n], y[j], key));
        } else {
            lemma_key_before_irreflexive(key(b));
        }
        lemma_key_before_total(key(a), key(b));
        assert(x.contains(a));
        assert(a == b);
        let dx = x.drop_last();
        let dy = y.drop_last();
        assert(x.remove(n) =~= dx);
        assert(y.remove(n) =~= dy);
        assert(dx.to_multiset() == dy.to_multiset());
        assert forall|k: int, l: int| 0 <= k < l < dx.len() implies !precedes(
            #[trigger] dx[l],
            #[trigger] dx[k],
            key,
        ) by {
            assert(dx[k] == x[k] && dx[l] == x[l]);
        }
        assert forall|k: int, l: int| 0 <= k < l < dy.len() implies !precedes(
            #[trigger] dy[l],
            #[trigger] dy[k],
            key,
        ) by {
            assert(dy[k] == y[k] && dy[l] == y[l]);
        }
        assert forall|c: T, e: T| dx.contains(c) && dx.contains(e) && key(c) == key(e) implies c
            == e by {
            let k = choose|k: int| 0 <= k < dx.len() && dx[k] == c;
            let l = choose|l: int| 0 <= l < dx.len() && dx[l] == e;
            assert(x[k] == c && x[l] == e);
            assert(x.contains(c) && x.contains(e));
        }
        lemma_sorted_unique(dx, dy, key);
        assert(x =~= dx.push(a));
        assert(y =~= dy.push(b));
    }
}

/// Sorting and then mapping each entry gives what mapping and then sorting
/// gives, when the map keeps the keys.
pub proof fn lemma_stable_sorted_map<A, B>(
    s: Seq<A>,
    f: spec_fn(A) -> B,
    ka: spec_fn(A) -> SortKey,
    kb: spec_fn(B) -> SortKey,
)
    requires
        forall|a: A| #[trigger] kb(f(a)) == ka(a),
    ensures
        stable_sorted(s, ka).map_values(f) == stable_sorted(s.map_values(f), kb),
    decreases s.len(),
{
    if s.len() > 0 {
        lemma_stable_sorted_map(s.drop_last(), f, ka, kb);
        let t = stable_sorted(s.drop_last(), ka);
        let x = s.last();
        assert(s.map_values(f).drop_last() =~= s.drop_last().map_values(f));
        assert(s.map_values(f).last() == f(x));
        lemma_insert_pos_map(t, x, f, ka, kb);
        lemma_insert_pos(t, x, ka);
        assert(t.insert(insert_pos(t, x, ka), x).map_values(f) =~= t.map_values(f).insert(
            insert_pos(t, x, ka),
            f(x),
        ));
    } else {
        assert(stable_sorted(s, ka).map_values(f) =~= Seq::<B>::empty());
    }
}

/// Mapping the entries keeps the place of an insertion, when the map keeps
/// the keys.
proof fn lemma_insert_pos_map<A, B>(
    t: Seq<A>,
    x: A,
    f: spec_fn(A) -> B,
    ka: spec_fn(A) -> SortKey,
    kb: spec_fn(B) -> SortKey,
)
    requires
        forall|a: A| #[trigger] kb(f(a)) == ka(a),
    ensures
        insert_pos(t.map_values(f), f(x), kb) == insert_pos(t, x, ka),
    decreases t.len(),
{
    if t.len() > 0 {
        assert(t.map_values(f).drop_last() =~= t.drop_last().map_values(f));
        assert(kb(f(t.last())) == ka(t.last()));
        assert(kb(f(x)) == ka(x));
        lemma_insert_pos_map(t.drop_last(), x, f, ka, kb);
    }
}

} // verus!
