//! Stable sorting.
use vstd::prelude::*;

verus! {

/// A key that things are sorted by.
pub trait SortKey: Sized {
    /// `self` belongs before `other`. Keys of which neither belongs before the other are equal.
    spec fn precedes(self, other: Self) -> bool;

    proof fn before_is_one_way(a: Self, b: Self)
        ensures
            a.precedes(b) ==> !b.precedes(a),
    ;

    /// If `a` is not before `b`, nor `b` before `c`, then `a` is not before `c`.
    proof fn not_before_is_transitive(a: Self, b: Self, c: Self)
        ensures
            !a.precedes(b) && !b.precedes(c) ==> !a.precedes(c),
    ;

    fn is_before(&self, other: &Self) -> (r: bool)
        ensures
            r == self.precedes(*other),
    ;
}

impl SortKey for usize {
    open spec fn precedes(self, other: usize) -> bool {
        self < other
    }

    proof fn before_is_one_way(a: usize, b: usize) {
    }

    proof fn not_before_is_transitive(a: usize, b: usize, c: usize) {
    }

    fn is_before(&self, other: &usize) -> (r: bool) {
        *self < *other
    }
}

/// Order of words in a dictionary, by bytes.
pub open spec fn word_before(a: Seq<u8>, b: Seq<u8>) -> bool
    decreases a.len(),
{
    if b.len() == 0 {
        false
    } else if a.len() == 0 {
        true
    } else if a[0] != b[0] {
        a[0] < b[0]
    } else {
        word_before(a.skip(1), b.skip(1))
    }
}

proof fn lemma_word_one_way(a: Seq<u8>, b: Seq<u8>)
    ensures
        word_before(a, b) ==> !word_before(b, a),
    decreases a.len(),
{
    if a.len() > 0 && b.len() > 0 {
        lemma_word_one_way(a.skip(1), b.skip(1));
    }
}

proof fn lemma_word_not_before(a: Seq<u8>, b: Seq<u8>, c: Seq<u8>)
    ensures
        !word_before(a, b) && !word_before(b, c) ==> !word_before(a, c),
    decreases a.len(),
{
    if a.len() > 0 && b.len() > 0 && c.len() > 0 {
        lemma_word_not_before(a.skip(1), b.skip(1), c.skip(1));
    }
}

impl<'a> SortKey for &'a Vec<u8> {
    open spec fn precedes(self, other: &'a Vec<u8>) -> bool {
        word_before(self@, other@)
    }

    proof fn before_is_one_way(a: &'a Vec<u8>, b: &'a Vec<u8>) {
        lemma_word_one_way(a@, b@);
    }

    proof fn not_before_is_transitive(a: &'a Vec<u8>, b: &'a Vec<u8>, c: &'a Vec<u8>) {
        lemma_word_not_before(a@, b@, c@);
    }

    fn is_before(&self, other: &&'a Vec<u8>) -> (r: bool) {
        let mut i: usize = 0;
        assert(self@.skip(0) == self@);
        assert(other@.skip(0) == other@);
        while i < self.len() && i < other.len() && self[i] == other[i]
            invariant
                i <= self@.len(),
                i <= other@.len(),
                word_before(self@.skip(i as int), other@.skip(i as int)) == word_before(
                    self@,
                    other@,
                ),
            decreases self@.len() - i,
        {
            assert(self@.skip(i as int).skip(1) == self@.skip(i + 1));
            assert(other@.skip(i as int).skip(1) == other@.skip(i + 1));
            i = i + 1;
        }
        if i >= other.len() {
            false
        } else if i >= self.len() {
            true
        } else {
            self[i] < other[i]
        }
    }
}

/// Of two positions the one that is listed first.
pub open spec fn listed_before<K: SortKey>(keys: Seq<K>, x: int, y: int) -> bool {
    &&& !keys[y].precedes(keys[x])
    &&& keys[x].precedes(keys[y]) || x < y
}

pub open spec fn is_listed(order: Seq<usize>, x: int) -> bool {
    exists|a: int| 0 <= a < order.len() && #[trigger] order[a] == x
}

/// `order` lists the first `n` positions of `keys`, each once, by key, and those with equal keys
/// as they stand.
pub open spec fn lists<K: SortKey>(keys: Seq<K>, n: int, order: Seq<usize>) -> bool {
    &&& order.len() == n
    &&& forall|x: int| 0 <= x < n ==> #[trigger] is_listed(order, x)
    &&& forall|a: int| 0 <= a < order.len() ==> #[trigger] order[a] < n
    &&& forall|a: int, b: int|
        0 <= a < b < order.len() ==> listed_before(
            keys,
            #[trigger] order[a] as int,
            #[trigger] order[b] as int,
        )
}

/// `order` lists the positions of `keys`, each once, by key, and those with equal keys as they
/// stand.
pub open spec fn stable_order<K: SortKey>(keys: Seq<K>, order: Seq<usize>) -> bool {
    lists(keys, keys.len() as int, order)
}

/// Keys have one stable order.
pub proof fn law_stable_order_is_unique<K: SortKey>(keys: Seq<K>, a: Seq<usize>, b: Seq<usize>)
    requires
        stable_order(keys, a),
        stable_order(keys, b),
    ensures
        a == b,
{
    lemma_same_start(keys, a, b, keys.len() as int);
    assert(a == b);
}

proof fn lemma_same_start<K: SortKey>(keys: Seq<K>, a: Seq<usize>, b: Seq<usize>, n: int)
    requires
        stable_order(keys, a),
        stable_order(keys, b),
        0 <= n <= keys.len(),
    ensures
        forall|i: int| 0 <= i < n ==> a[i] == b[i],
    decreases n,
{
    if n > 0 {
        let k = n - 1;
        lemma_same_start(keys, a, b, k);
        if a[k] != b[k] {
            assert(is_listed(a, b[k] as int) && is_listed(b, a[k] as int));
            let i = choose|i: int| 0 <= i < a.len() && #[trigger] a[i] == b[k];
            let j = choose|j: int| 0 <= j < b.len() && #[trigger] b[j] == a[k];
            if i < k {
                assert(listed_before(keys, b[i] as int, b[k] as int));
            }
            if j < k {
                assert(listed_before(keys, a[j] as int, a[k] as int));
            }
            assert(listed_before(keys, a[k] as int, a[i] as int));
            assert(listed_before(keys, b[k] as int, b[j] as int));
        }
    }
}

/// The next position goes behind those with a smaller or equal key and before the others.
proof fn lemma_insert<K: SortKey>(keys: Seq<K>, n: usize, order: Seq<usize>, p: int)
    requires
        lists(keys, n as int, order),
        n < keys.len(),
        0 <= p <= n,
        p > 0 ==> !keys[n as int].precedes(keys[order[p - 1] as int]),
        forall|a: int|
            p <= a < n ==> keys[n as int].precedes(keys[#[trigger] order[a] as int]),
    ensures
        lists(keys, n + 1, order.insert(p, n)),
{
    let next = order.insert(p, n);
    assert forall|x: int| 0 <= x < n + 1 implies #[trigger] is_listed(next, x) by {
        if x == n {
            assert(next[p] == x);
        } else {
            assert(is_listed(order, x));
            let a = choose|a: int| 0 <= a < order.len() && #[trigger] order[a] == x;
            if a < p {
                assert(next[a] == x);
            } else {
                assert(next[a + 1] == x);
            }
        }
    }
    assert forall|a: int| 0 <= a < p implies !keys[n as int].precedes(
        keys[#[trigger] order[a] as int],
    ) by {
        if a < p - 1 {
            assert(listed_before(keys, order[a] as int, order[p - 1] as int));
            K::not_before_is_transitive(
                keys[n as int],
                keys[order[p - 1] as int],
                keys[order[a] as int],
            );
        }
    }
    assert forall|a: int, b: int| 0 <= a < b < next.len() implies listed_before(
        keys,
        #[trigger] next[a] as int,
        #[trigger] next[b] as int,
    ) by {
        let a0 = if a < p { a } else { a - 1 };
        let b0 = if b < p { b } else { b - 1 };
        if a == p {
            assert(next[b] == order[b0]);
            K::before_is_one_way(keys[n as int], keys[order[b0] as int]);
        } else if b == p {
            assert(next[a] == order[a0]);
        } else {
            assert(next[a] == order[a0] && next[b] == order[b0]);
        }
    }
}

/// The positions of `keys` in sorted order.
pub fn sorted_positions<K: SortKey>(keys: &Vec<K>) -> (r: Vec<usize>)
    ensures
        stable_order(keys@, r@),
{
    let mut order: Vec<usize> = Vec::new();
    for i in 0..keys.len()
        invariant
            lists(keys@, i as int, order@),
    {
        let mut p: usize = order.len();
        while p > 0 && keys[i].is_before(&keys[order[p - 1]])
            invariant
                p <= order@.len(),
                i < keys@.len(),
                lists(keys@, i as int, order@),
                forall|a: int|
                    p <= a < order@.len() ==> keys@[i as int].precedes(
                        keys@[#[trigger] order@[a] as int],
                    ),
            decreases p,
        {
            p = p - 1;
        }
        proof {
            lemma_insert(keys@, i, order@, p as int);
        }
        order.insert(p, i);
    }
    order
}

/// A stable order lists every position once. No key stands behind one that belongs after it, and
/// positions with equal keys stand as they stood.
pub proof fn law_stable_order_is_sorted<K: SortKey>(keys: Seq<K>, order: Seq<usize>, a: int, b: int)
    requires
        stable_order(keys, order),
        0 <= a < b < order.len(),
    ensures
        order.len() == keys.len(),
        order[a] != order[b],
        0 <= order[a] < keys.len(),
        0 <= order[b] < keys.len(),
        !keys[order[b] as int].precedes(keys[order[a] as int]),
        !keys[order[a] as int].precedes(keys[order[b] as int]) ==> order[a] < order[b],
{
    assert(listed_before(keys, order[a] as int, order[b] as int));
    K::before_is_one_way(keys[order[a] as int], keys[order[b] as int]);
}

/// Every position has a place in a stable order.
pub proof fn law_stable_order_is_complete<K: SortKey>(keys: Seq<K>, order: Seq<usize>, x: usize)
    requires
        stable_order(keys, order),
        x < keys.len(),
    ensures
        order.contains(x),
{
    assert(is_listed(order, x as int));
    let a = choose|a: int| 0 <= a < order.len() && #[trigger] order[a] == x;
    assert(order[a] == x);
}

/// Numbers are ordered by size.
pub proof fn law_numbers_are_ordered_by_size(a: usize, b: usize)
    ensures
        a.precedes(b) <==> a < b,
{
}

/// Names are ordered by the first byte in which they differ; a name comes before its extensions.
pub proof fn law_names_are_ordered_by_first_difference(a: &Vec<u8>, b: &Vec<u8>, k: int)
    requires
        0 <= k <= a@.len(),
        k <= b@.len(),
        a@.take(k) == b@.take(k),
        k < a@.len() && k < b@.len() ==> a@[k] != b@[k],
    ensures
        a.precedes(b) <==> k < b@.len() && (k == a@.len() || a@[k] < b@[k]),
{
    lemma_word_difference(a@, b@, k);
}

proof fn lemma_word_difference(a: Seq<u8>, b: Seq<u8>, k: int)
    requires
        0 <= k <= a.len(),
        k <= b.len(),
        a.take(k) == b.take(k),
        k < a.len() && k < b.len() ==> a[k] != b[k],
    ensures
        word_before(a, b) <==> k < b.len() && (k == a.len() || a[k] < b[k]),
    decreases k,
{
    if k > 0 {
        assert(a.take(k)[0] == a[0] && b.take(k)[0] == b[0]);
        assert(a.skip(1).take(k - 1) == a.take(k).skip(1));
        assert(b.skip(1).take(k - 1) == b.take(k).skip(1));
        lemma_word_difference(a.skip(1), b.skip(1), k - 1);
    }
}

} // verus!
