//! A stable sort of lists by a text key.
//!
//! A list is sorted when the keys of its items never decrease, keys being
//! compared by their UTF-8 bytes (the order of std's `str`). Sorting keeps, for
//! every key, the items that carry it in the order in which they came: the
//! items of each key class are the same list before and after.
use vstd::prelude::*;
use crate::text::{bytes_le, lemma_bytes_le_antisymmetric, bytes_le_exec, lemma_bytes_le_reflexive, lemma_bytes_le_total, lemma_bytes_le_transitive};

verus! {

/// Items that are ordered by a text key.
pub trait SortKey: Sized {
    /// The UTF-8 bytes of the key by which the item is ordered.
    spec fn sort_key(&self) -> Seq<u8>;

    /// The key of the item, as bytes.
    fn key_bytes(&self) -> (k: &[u8])
        ensures
            k@ == self.sort_key(),
    ;

    /// A copy of the item.
    fn duplicate(&self) -> (r: Self)
        ensures
            r == *self,
    ;
}

/// The keys of `s` never decrease.
pub open spec fn sorted_by_key<T: SortKey>(s: Seq<T>) -> bool {
    forall|i: int, j: int|
        0 <= i < j < s.len() ==> bytes_le(#[trigger] s[i].sort_key(), #[trigger] s[j].sort_key())
}

/// Whether an item carries the key `k`.
pub open spec fn has_key<T: SortKey>(k: Seq<u8>) -> spec_fn(T) -> bool {
    |x: T| x.sort_key() == k
}

/// The items of `s` whose key is `k`, in the order in which they occur.
pub open spec fn key_class<T: SortKey>(s: Seq<T>, k: Seq<u8>) -> Seq<T> {
    s.filter(has_key(k))
}

/// `a` and `b` hold, for every key, the same items in the same order.
pub open spec fn same_key_classes<T: SortKey>(a: Seq<T>, b: Seq<T>) -> bool {
    forall|k: Seq<u8>| #[trigger] key_class(a, k) == key_class(b, k)
}

/// `a` is `b` sorted stably by key.
pub open spec fn is_stable_sort_of<T: SortKey>(a: Seq<T>, b: Seq<T>) -> bool {
    sorted_by_key(a) && same_key_classes(a, b)
}

proof fn lemma_key_class_empty<T: SortKey>(k: Seq<u8>)
    ensures
        key_class(Seq::<T>::empty(), k) == Seq::<T>::empty(),
{
    reveal(Seq::filter);
}

proof fn lemma_key_class_push<T: SortKey>(s: Seq<T>, x: T, k: Seq<u8>)
    ensures
        key_class(s.push(x), k) == if x.sort_key() == k {
            key_class(s, k).push(x)
        } else {
            key_class(s, k)
        },
{
    s.lemma_filter_push(x, has_key(k));
}

proof fn lemma_key_class_add<T: SortKey>(a: Seq<T>, b: Seq<T>, k: Seq<u8>)
    ensures
        key_class(a + b, k) == key_class(a, k) + key_class(b, k),
{
    Seq::filter_distributes_over_add(a, b, has_key(k));
}

/// A class is empty when no item carries its key.
proof fn lemma_key_class_none<T: SortKey>(s: Seq<T>, k: Seq<u8>)
    requires
        forall|i: int| 0 <= i < s.len() ==> (#[trigger] s[i]).sort_key() != k,
    ensures
        key_class(s, k) == Seq::<T>::empty(),
    decreases s.len(),
{
    reveal(Seq::filter);
    if s.len() > 0 {
        lemma_key_class_none(s.drop_last(), k);
        lemma_key_class_push(s.drop_last(), s.last(), k);
        assert(s.drop_last().push(s.last()) =~= s);
    }
}

/// Appending an item whose key is not below the last key keeps a list sorted.
proof fn lemma_sorted_push<T: SortKey>(s: Seq<T>, x: T)
    requires
        sorted_by_key(s),
        s.len() > 0 ==> bytes_le(s.last().sort_key(), x.sort_key()),
    ensures
        sorted_by_key(s.push(x)),
{
    let t = s.push(x);
    assert forall|i: int, j: int| 0 <= i < j < t.len() implies bytes_le(
        #[trigger] t[i].sort_key(),
        #[trigger] t[j].sort_key(),
    ) by {
        if j == t.len() - 1 {
            if i < s.len() - 1 {
                assert(bytes_le(s[i].sort_key(), s[s.len() - 1].sort_key()));
                lemma_bytes_le_transitive(s[i].sort_key(), s.last().sort_key(), x.sort_key());
            }
        } else {
            assert(t[i] == s[i] && t[j] == s[j]);
        }
    }
}

/// The class of a list splits into that of its first item and that of the rest.
proof fn lemma_key_class_prepend<T: SortKey>(s: Seq<T>, k: Seq<u8>)
    requires
        s.len() > 0,
    ensures
        key_class(s, k) == (if s[0].sort_key() == k {
            seq![s[0]]
        } else {
            Seq::<T>::empty()
        }) + key_class(s.drop_first(), k),
{
    assert(s =~= seq![s[0]] + s.drop_first());
    s.drop_first().lemma_filter_prepend(s[0], has_key(k));
}

/// A non-empty class has an item of the list that carries its key.
proof fn lemma_key_class_witness<T: SortKey>(s: Seq<T>, k: Seq<u8>) -> (m: int)
    requires
        key_class(s, k).len() > 0,
    ensures
        0 <= m < s.len(),
        s[m].sort_key() == k,
{
    let e = key_class(s, k)[0];
    s.lemma_filter_pred(has_key(k), 0);
    assert(key_class(s, k).contains(e));
    s.lemma_filter_contains_rev(has_key(k), e);
    choose|m: int| 0 <= m < s.len() && s[m] == e
}

/// The order of the keys of a sorted list is the order of the list: a sorted
/// list that holds the same items of each key as another sorted list is that
/// list. So a stable sort of a list is unique, and sorting a sorted list
/// leaves it as it is.
pub proof fn lemma_stable_sort_unique<T: SortKey>(a: Seq<T>, b: Seq<T>)
    requires
        sorted_by_key(a),
        sorted_by_key(b),
        same_key_classes(a, b),
    ensures
        a == b,
    decreases a.len(),
{
    if a.len() == 0 || b.len() == 0 {
        if a.len() > 0 || b.len() > 0 {
            let (x, y) = if a.len() > 0 { (a, b) } else { (b, a) };
            let k = x[0].sort_key();
            lemma_key_class_prepend(x, k);
            assert(y =~= Seq::<T>::empty());
            lemma_key_class_empty::<T>(k);
            assert(key_class(x, k) == key_class(y, k));
            assert(false);
        }
        assert(a =~= b);
    } else {
        let ka = a[0].sort_key();
        let kb = b[0].sort_key();
        let ra = a.drop_first();
        let rb = b.drop_first();
        lemma_key_class_prepend(a, ka);
        lemma_key_class_prepend(b, kb);
        lemma_key_class_prepend(a, kb);
        lemma_key_class_prepend(b, ka);
        if ka != kb {
            assert(key_class(a, ka) == key_class(b, ka));
            assert(key_class(b, ka) =~= key_class(rb, ka));
            let mb = lemma_key_class_witness(rb, ka);
            assert(bytes_le(b[0].sort_key(), b[mb + 1].sort_key()));
            assert(key_class(a, kb) == key_class(b, kb));
            assert(key_class(a, kb) =~= key_class(ra, kb));
            let ma = lemma_key_class_witness(ra, kb);
            assert(bytes_le(a[0].sort_key(), a[ma + 1].sort_key()));
            lemma_bytes_le_antisymmetric(ka, kb);
        }
        let ca = key_class(a, ka);
        let cb = key_class(b, ka);
        assert(ca == cb);
        assert(ca[0] == a[0]);
        assert(cb[0] == b[0]);
        assert(ca.drop_first() =~= key_class(ra, ka));
        assert(cb.drop_first() =~= key_class(rb, ka));
        assert forall|k: Seq<u8>| #[trigger] key_class(ra, k) == key_class(rb, k) by {
            lemma_key_class_prepend(a, k);
            lemma_key_class_prepend(b, k);
            assert(key_class(a, k) == key_class(b, k));
            if k != ka {
                assert(key_class(a, k) =~= key_class(ra, k));
                assert(key_class(b, k) =~= key_class(rb, k));
            }
        }
        assert forall|i: int, j: int| 0 <= i < j < ra.len() implies bytes_le(
            #[trigger] ra[i].sort_key(),
            #[trigger] ra[j].sort_key(),
        ) by {
            assert(ra[i] == a[i + 1] && ra[j] == a[j + 1]);
        }
        assert forall|i: int, j: int| 0 <= i < j < rb.len() implies bytes_le(
            #[trigger] rb[i].sort_key(),
            #[trigger] rb[j].sort_key(),
        ) by {
            assert(rb[i] == b[i + 1] && rb[j] == b[j + 1]);
        }
        lemma_stable_sort_unique(ra, rb);
        assert(a =~= seq![a[0]] + ra);
        assert(b =~= seq![b[0]] + rb);
    }
}

/// A stable sort loses no item and adds none.
pub proof fn lemma_stable_sort_keeps_items<T: SortKey>(a: Seq<T>, b: Seq<T>, x: T)
    requires
        is_stable_sort_of(a, b),
    ensures
        a.contains(x) <==> b.contains(x),
{
    let k = x.sort_key();
    let p = has_key::<T>(k);
    if b.contains(x) {
        let i = choose|i: int| 0 <= i < b.len() && b[i] == x;
        b.lemma_filter_contains(p, i);
        assert(key_class(a, k) == key_class(b, k));
        a.lemma_filter_contains_rev(p, x);
    }
    if a.contains(x) {
        let i = choose|i: int| 0 <= i < a.len() && a[i] == x;
        a.lemma_filter_contains(p, i);
        assert(key_class(a, k) == key_class(b, k));
        b.lemma_filter_contains_rev(p, x);
    }
}

/// The last position of `s` that holds an item with key `k`.
proof fn lemma_last_with_key<T: SortKey>(s: Seq<T>, k: Seq<u8>) -> (p: int)
    requires
        key_class(s, k).len() > 0,
    ensures
        0 <= p < s.len(),
        s[p].sort_key() == k,
        forall|j: int| p < j < s.len() ==> (#[trigger] s[j]).sort_key() != k,
    decreases s.len(),
{
    if s.len() == 0 {
        lemma_key_class_empty::<T>(k);
        assert(s =~= Seq::<T>::empty());
        0
    } else if s.last().sort_key() == k {
        s.len() - 1
    } else {
        assert(s.drop_last().push(s.last()) =~= s);
        lemma_key_class_push(s.drop_last(), s.last(), k);
        lemma_last_with_key(s.drop_last(), k)
    }
}

/// The class of a one-item list.
proof fn lemma_key_class_single<T: SortKey>(x: T, k: Seq<u8>)
    ensures
        key_class(seq![x], k) == if x.sort_key() == k {
            seq![x]
        } else {
            Seq::<T>::empty()
        },
{
    lemma_key_class_empty::<T>(k);
    assert(Seq::<T>::empty().push(x) =~= seq![x]);
    lemma_key_class_push(Seq::<T>::empty(), x, k);
}

/// The class of a list, split around position `p`; and the class of the list
/// without position `p`.
proof fn lemma_key_class_split<T: SortKey>(a: Seq<T>, p: int, k: Seq<u8>)
    requires
        0 <= p < a.len(),
    ensures
        key_class(a, k) == key_class(a.subrange(0, p), k) + key_class(seq![a[p]], k) + key_class(
            a.subrange(p + 1, a.len() as int),
            k,
        ),
        key_class(a.remove(p), k) == key_class(a.subrange(0, p), k) + key_class(
            a.subrange(p + 1, a.len() as int),
            k,
        ),
{
    let pre = a.subrange(0, p);
    let post = a.subrange(p + 1, a.len() as int);
    let mid = seq![a[p]];
    assert(a =~= (pre + mid) + post);
    assert(a.remove(p) =~= pre + post);
    lemma_key_class_add(pre + mid, post, k);
    lemma_key_class_add(pre, mid, k);
    lemma_key_class_add(pre, post, k);
}

/// Lists that hold, for every key, the same items in the same order hold the
/// same items as many times each: one is a rearrangement of the other.
pub proof fn lemma_same_key_classes_same_multiset<T: SortKey>(a: Seq<T>, b: Seq<T>)
    requires
        same_key_classes(a, b),
    ensures
        a.to_multiset() == b.to_multiset(),
    decreases b.len(),
{
    if b.len() == 0 {
        if a.len() > 0 {
            let k = a[0].sort_key();
            lemma_key_class_prepend(a, k);
            assert(b =~= Seq::<T>::empty());
            lemma_key_class_empty::<T>(k);
            assert(key_class(a, k) == key_class(b, k));
            assert(false);
        }
        assert(a =~= b);
    } else {
        let x = b.last();
        let k = x.sort_key();
        let rb = b.drop_last();
        assert(rb.push(x) =~= b);
        lemma_key_class_push(rb, x, k);
        assert(key_class(a, k) == key_class(b, k));
        let p = lemma_last_with_key(a, k);
        let pre = a.subrange(0, p);
        let post = a.subrange(p + 1, a.len() as int);
        let ra = a.remove(p);
        assert forall|j: int| 0 <= j < post.len() implies (#[trigger] post[j]).sort_key() != k by {
            assert(post[j] == a[p + 1 + j]);
        }
        lemma_key_class_none(post, k);
        lemma_key_class_split(a, p, k);
        lemma_key_class_single(a[p], k);
        assert(key_class(a, k) =~= key_class(pre, k).push(a[p]));
        assert(key_class(b, k).last() == x);
        assert(a[p] == x);
        assert forall|kk: Seq<u8>| #[trigger] key_class(ra, kk) == key_class(rb, kk) by {
            lemma_key_class_split(a, p, kk);
            lemma_key_class_single(a[p], kk);
            lemma_key_class_push(rb, x, kk);
            assert(key_class(a, kk) == key_class(b, kk));
            if kk == k {
                assert(key_class(ra, k) =~= key_class(pre, k));
                assert(key_class(rb, k) =~= key_class(b, k).drop_last());
            } else {
                assert(key_class(a, kk) =~= key_class(ra, kk));
            }
        }
        lemma_same_key_classes_same_multiset(ra, rb);
        assert(ra.insert(p, x) =~= a);
        vstd::seq_lib::to_multiset_insert(ra, p, x);
        vstd::seq_lib::to_multiset_build(rb, x);
    }
}

/// A stable sort is a rearrangement: it holds every item as many times as the
/// list it sorts.
pub proof fn lemma_stable_sort_is_permutation<T: SortKey>(a: Seq<T>, b: Seq<T>)
    requires
        is_stable_sort_of(a, b),
    ensures
        a.to_multiset() == b.to_multiset(),
        a.len() == b.len(),
{
    lemma_same_key_classes_same_multiset(a, b);
    vstd::seq_lib::to_multiset_len(a);
    vstd::seq_lib::to_multiset_len(b);
}

/// Sorting a list that is already sorted leaves it as it is.
pub proof fn lemma_sort_of_sorted_is_identity<T: SortKey>(a: Seq<T>, b: Seq<T>)
    requires
        sorted_by_key(a),
        is_stable_sort_of(b, a),
    ensures
        b == a,
{
    lemma_stable_sort_unique(b, a);
}

/// Merges two sorted lists into one; on equal keys the items of `a` come first.
fn merge<T: SortKey>(a: &Vec<T>, b: &Vec<T>) -> (r: Vec<T>)
    requires
        sorted_by_key(a@),
        sorted_by_key(b@),
    ensures
        sorted_by_key(r@),
        forall|k: Seq<u8>| #[trigger] key_class(r@, k) == key_class(a@, k) + key_class(b@, k),
{
    let mut out: Vec<T> = Vec::new();
    let mut i: usize = 0;
    let mut j: usize = 0;
    proof {
        assert forall|k: Seq<u8>| #[trigger] key_class(out@, k) == key_class(a@.take(0), k)
            + key_class(b@.take(0), k) by {
            assert(a@.take(0) =~= Seq::<T>::empty());
            assert(b@.take(0) =~= Seq::<T>::empty());
            assert(out@ =~= Seq::<T>::empty());
            lemma_key_class_empty::<T>(k);
        }
    }
    while i < a.len() || j < b.len()
        invariant
            i <= a@.len(),
            j <= b@.len(),
            sorted_by_key(a@),
            sorted_by_key(b@),
            sorted_by_key(out@),
            forall|k: Seq<u8>| #[trigger]
                key_class(out@, k) == key_class(a@.take(i as int), k) + key_class(
                    b@.take(j as int),
                    k,
                ),
            out@.len() > 0 && i < a@.len() ==> bytes_le(
                out@.last().sort_key(),
                a@[i as int].sort_key(),
            ),
            out@.len() > 0 && j < b@.len() ==> bytes_le(
                out@.last().sort_key(),
                b@[j as int].sort_key(),
            ),
            i < a@.len() ==> forall|m: int|
                0 <= m < j ==> !bytes_le(a@[i as int].sort_key(), #[trigger] b@[m].sort_key()),
        decreases a@.len() + b@.len() - i - j,
    {
        let take_a = if i == a.len() {
            false
        } else if j == b.len() {
            true
        } else {
            bytes_le_exec(a[i].key_bytes(), b[j].key_bytes())
        };
        if take_a {
            let x = a[i].duplicate();
            proof {
                let old_out = out@;
                let ka = x.sort_key();
                lemma_sorted_push(old_out, x);
                assert forall|k: Seq<u8>| #[trigger]
                    key_class(old_out.push(x), k) == key_class(a@.take(i + 1), k) + key_class(
                        b@.take(j as int),
                        k,
                    ) by {
                    lemma_key_class_push(old_out, x, k);
                    assert(a@.take(i + 1) =~= a@.take(i as int).push(x));
                    lemma_key_class_push(a@.take(i as int), x, k);
                    if ka == k {
                        assert forall|m: int| 0 <= m < b@.take(j as int).len() implies (
                        #[trigger] b@.take(j as int)[m]).sort_key() != k by {
                            assert(!bytes_le(ka, b@[m].sort_key()));
                            lemma_bytes_le_reflexive(ka);
                        }
                        lemma_key_class_none(b@.take(j as int), k);
                    }
                }
                if i + 1 < a@.len() {
                    assert(bytes_le(a@[i as int].sort_key(), a@[i + 1].sort_key()));
                    assert forall|m: int| 0 <= m < j implies !bytes_le(
                        a@[i + 1].sort_key(),
                        #[trigger] b@[m].sort_key(),
                    ) by {
                        if bytes_le(a@[i + 1].sort_key(), b@[m].sort_key()) {
                            lemma_bytes_le_transitive(
                                a@[i as int].sort_key(),
                                a@[i + 1].sort_key(),
                                b@[m].sort_key(),
                            );
                        }
                    }
                }
            }
            out.push(x);
            i = i + 1;
        } else {
            let y = b[j].duplicate();
            proof {
                let old_out = out@;
                let kb = y.sort_key();
                if i < a@.len() {
                    lemma_bytes_le_total(a@[i as int].sort_key(), kb);
                }
                lemma_sorted_push(old_out, y);
                assert forall|k: Seq<u8>| #[trigger]
                    key_class(old_out.push(y), k) == key_class(a@.take(i as int), k) + key_class(
                        b@.take(j + 1),
                        k,
                    ) by {
                    lemma_key_class_push(old_out, y, k);
                    assert(b@.take(j + 1) =~= b@.take(j as int).push(y));
                    lemma_key_class_push(b@.take(j as int), y, k);
                }
                if j + 1 < b@.len() {
                    assert(bytes_le(b@[j as int].sort_key(), b@[j + 1].sort_key()));
                }
            }
            out.push(y);
            j = j + 1;
        }
    }
    proof {
        assert(a@.take(a@.len() as int) =~= a@);
        assert(b@.take(b@.len() as int) =~= b@);
    }
    out
}

/// Sorts the items `v[lo..hi]` stably by key, into a new list.
fn merge_sort_range<T: SortKey>(v: &Vec<T>, lo: usize, hi: usize) -> (r: Vec<T>)
    requires
        lo <= hi <= v@.len(),
    ensures
        is_stable_sort_of(r@, v@.subrange(lo as int, hi as int)),
    decreases hi - lo,
{
    if hi - lo == 0 {
        let r: Vec<T> = Vec::new();
        proof {
            assert(v@.subrange(lo as int, hi as int) =~= r@);
        }
        r
    } else if hi - lo == 1 {
        let mut r: Vec<T> = Vec::new();
        r.push(v[lo].duplicate());
        proof {
            assert(v@.subrange(lo as int, hi as int) =~= r@);
        }
        r
    } else {
        let mid = lo + (hi - lo) / 2;
        let left = merge_sort_range(v, lo, mid);
        let right = merge_sort_range(v, mid, hi);
        let r = merge(&left, &right);
        proof {
            let whole = v@.subrange(lo as int, hi as int);
            let a = v@.subrange(lo as int, mid as int);
            let b = v@.subrange(mid as int, hi as int);
            assert(whole =~= a + b);
            assert forall|k: Seq<u8>| #[trigger] key_class(r@, k) == key_class(whole, k) by {
                lemma_key_class_add(a, b, k);
                assert(key_class(left@, k) == key_class(a, k));
                assert(key_class(right@, k) == key_class(b, k));
            }
        }
        r
    }
}

/// Sorts `v` stably by key.
pub fn sort_by_key<T: SortKey>(v: &mut Vec<T>)
    ensures
        is_stable_sort_of(final(v)@, old(v)@),
{
    let n = v.len();
    let sorted = merge_sort_range(v, 0, n);
    proof {
        assert(old(v)@.subrange(0, n as int) =~= old(v)@);
    }
    *v = sorted;
}

} // verus!
