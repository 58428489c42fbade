//! Ordering texts the way `String`'s `Ord` does, and a stable sort by key.
use vstd::prelude::*;
use vstd::set_lib::{lemma_int_range, lemma_map_size, lemma_subset_equality, set_int_range};

verus! {

/// Whether `a` comes before `b`, character by character by code point, a
/// proper prefix first. (UTF-8 keeps code point order, so this is the order
/// of `String`.)
pub open spec fn text_less(a: Seq<char>, b: Seq<char>) -> bool
    decreases a.len(),
{
    if a.len() == 0 {
        b.len() > 0
    } else if b.len() == 0 {
        false
    } else if a[0] != b[0] {
        a[0] < b[0]
    } else {
        text_less(a.drop_first(), b.drop_first())
    }
}

/// Whether the item at `i` goes before the item at `j` when sorting by
/// `keys` and keeping items with equal keys in their given order.
pub open spec fn sorts_before(keys: Seq<Seq<char>>, i: int, j: int) -> bool {
    text_less(keys[i], keys[j]) || (keys[i] == keys[j] && i < j)
}

/// Whether `order` lists every index of `keys` once, sorted by key, items
/// with equal keys in their given order.
pub open spec fn is_stable_order(keys: Seq<Seq<char>>, order: Seq<usize>) -> bool {
    &&& order.len() == keys.len()
    &&& forall|k: int| 0 <= k < order.len() ==> #[trigger] order[k] < keys.len()
    &&& forall|k: int, l: int|
        0 <= k < l < order.len() ==> sorts_before(keys, #[trigger] order[k] as int, #[trigger] order[l] as int)
}

pub proof fn lemma_text_less_irreflexive(a: Seq<char>)
    ensures
        !text_less(a, a),
    decreases a.len(),
{
    if a.len() > 0 {
        lemma_text_less_irreflexive(a.drop_first());
    }
}

pub proof fn lemma_text_less_transitive(a: Seq<char>, b: Seq<char>, c: Seq<char>)
    requires
        text_less(a, b),
        text_less(b, c),
    ensures
        text_less(a, c),
    decreases a.len(),
{
    if a.len() > 0 && b.len() > 0 && c.len() > 0 && a[0] == b[0] && b[0] == c[0] {
        lemma_text_less_transitive(a.drop_first(), b.drop_first(), c.drop_first());
    }
}

pub proof fn lemma_text_less_total(a: Seq<char>, b: Seq<char>)
    ensures
        text_less(a, b) || text_less(b, a) || a == b,
    decreases a.len(),
{
    if a.len() > 0 && b.len() > 0 {
        if a[0] == b[0] {
            lemma_text_less_total(a.drop_first(), b.drop_first());
            if a.drop_first() == b.drop_first() {
                assert(a == seq![a[0]] + a.drop_first());
                assert(b == seq![b[0]] + b.drop_first());
            }
        }
    } else if a.len() == 0 && b.len() == 0 {
        assert(a == b);
    }
}

/// Compares two texts as `String`'s `Ord` does.
pub fn text_lt(a: &Vec<char>, b: &Vec<char>) -> (out: bool)
    ensures
        out == text_less(a@, b@),
{
    let mut i: usize = 0;
    assert(a@.skip(0) == a@);
    assert(b@.skip(0) == b@);
    while i < a.len() && i < b.len() && a[i] == b[i]
        invariant
            i <= a@.len(),
            i <= b@.len(),
            text_less(a@, b@) == text_less(a@.skip(i as int), b@.skip(i as int)),
        decreases a@.len() - i,
    {
        assert(a@.skip(i as int).drop_first() == a@.skip(i + 1));
        assert(b@.skip(i as int).drop_first() == b@.skip(i + 1));
        i += 1;
    }
    assert(a@.skip(i as int).len() == a@.len() - i);
    if i < a.len() && i < b.len() {
        assert(a@.skip(i as int)[0] == a@[i as int]);
        assert(b@.skip(i as int)[0] == b@[i as int]);
        a[i] < b[i]
    } else {
        i >= a.len() && i < b.len()
    }
}

/// The indices of `keys`, sorted by key; items with equal keys keep their
/// given order.
pub fn stable_order(keys: &Vec<Vec<char>>) -> (order: Vec<usize>)
    ensures
        is_stable_order(keys@.map_values(|k: Vec<char>| k@), order@),
{
    let ghost ks = keys@.map_values(|k: Vec<char>| k@);
    let n = keys.len();
    let mut order: Vec<usize> = Vec::new();
    let mut i: usize = 0;
    while i < n
        invariant
            i <= n,
            n == keys@.len(),
            ks == keys@.map_values(|k: Vec<char>| k@),
            order@.len() == i,
            forall|k: int| 0 <= k < order@.len() ==> #[trigger] order@[k] < i,
            forall|k: int, l: int|
                0 <= k < l < order@.len() ==> sorts_before(ks, #[trigger] order@[k] as int, #[trigger] order@[l] as int),
        decreases n - i,
    {
        let mut pos: usize = 0;
        while pos < order.len() && !text_lt(&keys[i], &keys[order[pos]])
            invariant
                i < n,
                n == keys@.len(),
                ks == keys@.map_values(|k: Vec<char>| k@),
                pos <= order@.len(),
                forall|k: int| 0 <= k < order@.len() ==> #[trigger] order@[k] < i,
                forall|k: int| 0 <= k < pos ==> sorts_before(ks, #[trigger] order@[k] as int, i as int),
            decreases order@.len() - pos,
        {
            proof {
                let o = order@[pos as int] as int;
                lemma_text_less_total(ks[i as int], ks[o]);
            }
            pos += 1;
        }
        let ghost old_order = order@;
        proof {
            assert forall|l: int| pos <= l < old_order.len() implies sorts_before(
                ks,
                i as int,
                #[trigger] old_order[l] as int,
            ) by {
                let p = old_order[pos as int] as int;
                let q = old_order[l] as int;
                assert(text_less(ks[i as int], ks[p]));
                if l > pos {
                    assert(sorts_before(ks, p, q));
                    if text_less(ks[p], ks[q]) {
                        lemma_text_less_transitive(ks[i as int], ks[p], ks[q]);
                    }
                }
            }
            old_order.insert_ensures(pos as int, i);
        }
        order.insert(pos, i);
        proof {
            let new_order = order@;
            assert(new_order == old_order.subrange(0, pos as int).push(i) + old_order.subrange(
                pos as int,
                old_order.len() as int,
            ));
            assert forall|k: int, l: int| 0 <= k < l < new_order.len() implies sorts_before(
                ks,
                #[trigger] new_order[k] as int,
                #[trigger] new_order[l] as int,
            ) by {
                if l < pos {
                } else if k < pos && l == pos {
                } else if k < pos && l > pos {
                    assert(new_order[l] == old_order[l - 1]);
                } else if k == pos {
                    assert(new_order[l] == old_order[l - 1]);
                } else {
                    assert(new_order[l] == old_order[l - 1]);
                    assert(new_order[k] == old_order[k - 1]);
                }
            }
        }
        i += 1;
    }
    order
}

proof fn lemma_sorts_before_asymmetric(keys: Seq<Seq<char>>, a: int, b: int)
    requires
        sorts_before(keys, a, b),
    ensures
        !sorts_before(keys, b, a),
{
    lemma_text_less_irreflexive(keys[a]);
    lemma_text_less_irreflexive(keys[b]);
    if text_less(keys[a], keys[b]) && text_less(keys[b], keys[a]) {
        lemma_text_less_transitive(keys[a], keys[b], keys[a]);
    }
}

/// A stable order lists every index once.
pub proof fn lemma_stable_order_lists_every_index(keys: Seq<Seq<char>>, order: Seq<usize>, i: int)
    requires
        is_stable_order(keys, order),
        0 <= i < keys.len(),
    ensures
        exists|k: int| 0 <= k < order.len() && order[k] == i,
{
    let n = keys.len() as int;
    let ints = order.map_values(|x: usize| x as int);
    assert forall|k: int, l: int| 0 <= k < ints.len() && 0 <= l < ints.len() && k != l implies ints[k]
        != ints[l] by {
        let (lo, hi) = if k < l {
            (k, l)
        } else {
            (l, k)
        };
        assert(sorts_before(keys, order[lo] as int, order[hi] as int));
        lemma_text_less_irreflexive(keys[order[lo] as int]);
    }
    assert(ints.no_duplicates());
    ints.unique_seq_to_set();
    lemma_int_range(0, n);
    assert(ints.to_set().subset_of(set_int_range(0, n))) by {
        assert forall|x: int| ints.to_set().contains(x) implies set_int_range(0, n).contains(x) by {
            let k = choose|k: int| 0 <= k < ints.len() && ints[k] == x;
            assert(order[k] < keys.len());
        }
    }
    vstd::seq_lib::seq_to_set_is_finite(ints);
    lemma_subset_equality(ints.to_set(), set_int_range(0, n));
    assert(set_int_range(0, n).contains(i));
    assert(ints.to_set().contains(i));
    let k = choose|k: int| 0 <= k < ints.len() && ints[k] == i;
    assert(order[k] == i);
}

proof fn lemma_stable_orders_agree_before(keys: Seq<Seq<char>>, o1: Seq<usize>, o2: Seq<usize>, k: int)
    requires
        is_stable_order(keys, o1),
        is_stable_order(keys, o2),
        0 <= k <= keys.len(),
    ensures
        forall|j: int| 0 <= j < k ==> o1[j] == o2[j],
    decreases k,
{
    if k > 0 {
        lemma_stable_orders_agree_before(keys, o1, o2, k - 1);
        let j = k - 1;
        let a = o1[j] as int;
        let b = o2[j] as int;
        if a != b {
            lemma_stable_order_lists_every_index(keys, o1, b);
            lemma_stable_order_lists_every_index(keys, o2, a);
            let p = choose|p: int| 0 <= p < o1.len() && o1[p] == b;
            let q = choose|q: int| 0 <= q < o2.len() && o2[q] == a;
            if p < j {
                assert(o2[p] == b);
                assert(sorts_before(keys, o2[p] as int, o2[j] as int));
                lemma_text_less_irreflexive(keys[b]);
            }
            if q < j {
                assert(o1[q] == a);
                assert(sorts_before(keys, o1[q] as int, o1[j] as int));
                lemma_text_less_irreflexive(keys[a]);
            }
            assert(sorts_before(keys, a, b));
            assert(sorts_before(keys, b, a));
            lemma_sorts_before_asymmetric(keys, a, b);
        }
    }
}

/// There is only one stable order of a list of keys: sorting by key and
/// keeping equal keys in their given order leaves no choice.
pub proof fn lemma_stable_order_unique(keys: Seq<Seq<char>>, o1: Seq<usize>, o2: Seq<usize>)
    requires
        is_stable_order(keys, o1),
        is_stable_order(keys, o2),
    ensures
        o1 == o2,
{
    lemma_stable_orders_agree_before(keys, o1, o2, keys.len() as int);
    assert(o1 =~= o2);
}

/// How many of the indices below `n` satisfy `p`.
pub open spec fn count_indices(n: int, p: spec_fn(int) -> bool) -> nat
    decreases n,
{
    if n <= 0 {
        0
    } else {
        count_indices(n - 1, p) + if p(n - 1) {
            1nat
        } else {
            0nat
        }
    }
}

/// The indices below `n` that satisfy `p`.
pub open spec fn indices_where(n: int, p: spec_fn(int) -> bool) -> Set<int> {
    Set::new(|i: int| 0 <= i < n && p(i))
}

proof fn lemma_count_is_size(n: int, p: spec_fn(int) -> bool)
    requires
        n >= 0,
    ensures
        indices_where(n, p).finite(),
        indices_where(n, p).len() == count_indices(n, p),
    decreases n,
{
    if n == 0 {
        assert(indices_where(n, p) =~= Set::<int>::empty());
    } else {
        lemma_count_is_size(n - 1, p);
        if p(n - 1) {
            assert(indices_where(n, p) =~= indices_where(n - 1, p).insert(n - 1));
        } else {
            assert(indices_where(n, p) =~= indices_where(n - 1, p));
        }
    }
}

/// Going through the items in a stable order meets as many that satisfy `p`
/// as going through them in their given order.
pub proof fn lemma_count_over_stable_order(keys: Seq<Seq<char>>, order: Seq<usize>, p: spec_fn(int) -> bool)
    requires
        is_stable_order(keys, order),
    ensures
        count_indices(keys.len() as int, |k: int| p(order[k] as int)) == count_indices(
            keys.len() as int,
            p,
        ),
{
    let n = keys.len() as int;
    let q = |k: int| p(order[k] as int);
    let f = |k: int| order[k] as int;
    let a = indices_where(n, q);
    let b = indices_where(n, p);
    lemma_count_is_size(n, q);
    lemma_count_is_size(n, p);
    assert forall|k1: int, k2: int| a.contains(k1) && a.contains(k2) && #[trigger] f(k1) == #[trigger] f(
        k2,
    ) implies k1 == k2 by {
        if k1 < k2 {
            assert(sorts_before(keys, order[k1] as int, order[k2] as int));
            lemma_text_less_irreflexive(keys[order[k1] as int]);
        } else if k2 < k1 {
            assert(sorts_before(keys, order[k2] as int, order[k1] as int));
            lemma_text_less_irreflexive(keys[order[k2] as int]);
        }
    }
    assert(a.map(f) =~= b) by {
        assert forall|i: int| b.contains(i) implies a.map(f).contains(i) by {
            lemma_stable_order_lists_every_index(keys, order, i);
            let k = choose|k: int| 0 <= k < order.len() && order[k] == i;
            assert(a.contains(k) && f(k) == i);
        }
        assert forall|i: int| a.map(f).contains(i) implies b.contains(i) by {
            let k = choose|k: int| a.contains(k) && f(k) == i;
            assert(order[k] < keys.len());
        }
    }
    lemma_map_size(a, b, f);
}

/// Predicates that agree on the indices below `n` count alike there.
pub proof fn lemma_count_indices_agree(n: int, p: spec_fn(int) -> bool, q: spec_fn(int) -> bool)
    requires
        forall|i: int| 0 <= i < n ==> #[trigger] p(i) == q(i),
    ensures
        count_indices(n, p) == count_indices(n, q),
    decreases n,
{
    if n > 0 {
        lemma_count_indices_agree(n - 1, p, q);
    }
}

} // verus!
