//! Ordered vector: a contiguous sequence kept permanently sorted by a
//! caller-supplied key, with duplicate keys ruled out.

use core::marker::PhantomData;
use vstd::prelude::*;

verus! {

use vstd::multiset::Multiset;
use vstd::pervasive::VecAdditionalExecFns;

/// Reported when an operation would leave two items with the same key in
/// the sequence. The data model forbids duplicate keys, so this is a
/// caller logic error rather than an ordinary runtime condition.
#[derive(Clone, Copy, Debug, PartialEq, Eq, Structural)]
pub struct DuplicateKeyViolation;

/// Key extraction strategy for [`OrdVec`].
///
/// The key must be a pure function of the item: `get_key` has to return
/// the value of the spec-level `skey` on every call. Distinct strategies
/// over the same item type yield distinct, incompatible sequence types.
pub trait OrdVecKey<T>: Sized {
    /// The key of an item, at the specification level.
    spec fn skey(item: T) -> u64;

    /// Extracts the key from an item.
    fn get_key(item: &T) -> (k: u64)
        ensures
            k == Self::skey(*item),
    ;
}

/// Key extraction strategy returning the first element of a pair.
pub struct OrdVecKeyFst;

impl<D> OrdVecKey<(u64, D)> for OrdVecKeyFst {
    open spec fn skey(item: (u64, D)) -> u64 {
        item.0
    }

    fn get_key(item: &(u64, D)) -> (k: u64) {
        item.0
    }
}

/// Ordered vector intended for fast lookup of items by key.
///
/// The key is stored inside `T` and extracted with the key strategy `K`.
/// Invariants, stated by [`OrdVec::wf`]: the items are strictly ascending
/// by key, hence no two items share a key.
pub struct OrdVec<T, K: OrdVecKey<T>> {
    items: Vec<T>,
    key_fn: PhantomData<K>,
}

impl<T, K: OrdVecKey<T>> View for OrdVec<T, K> {
    type V = Seq<T>;

    closed spec fn view(&self) -> Seq<T> {
        self.items@
    }
}

/// The items of `s` are strictly ascending by the key that `K` extracts.
pub open spec fn ascending_by_key<T, K: OrdVecKey<T>>(s: Seq<T>) -> bool {
    forall|i: int, j: int|
        0 <= i < j < s.len() ==> K::skey(s[i]) < K::skey(s[j])
}

/// The items of `s` are non-decreasing by key; items with equal keys may
/// still be present.
pub open spec fn sorted_le_by_key<T, K: OrdVecKey<T>>(s: Seq<T>) -> bool {
    forall|i: int, j: int|
        0 <= i <= j < s.len() ==> K::skey(s[i]) <= K::skey(s[j])
}

/// No two items of `s` share a key.
pub open spec fn unique_keys<T, K: OrdVecKey<T>>(s: Seq<T>) -> bool {
    forall|i: int, j: int|
        0 <= i < j < s.len() ==> K::skey(s[i]) != K::skey(s[j])
}

/// The surviving items of a transform pass: the payloads of the `Some`
/// results, in visitation order.
pub open spec fn kept<T>(outs: Seq<Option<T>>) -> Seq<T>
    decreases outs.len(),
{
    if outs.len() == 0 {
        Seq::empty()
    } else {
        match outs.last() {
            Some(x) => kept(outs.drop_last()).push(x),
            None => kept(outs.drop_last()),
        }
    }
}

/// A complete visitation record of a transform pass over `before`:
/// `visits` presents every item of `before` exactly once, in some order,
/// and `outs[n]` is a result the transform may return on `visits[n]`.
pub open spec fn visits_each_once<T, F: Fn(T) -> Option<T>>(
    f: F,
    before: Seq<T>,
    visits: Seq<T>,
    outs: Seq<Option<T>>,
) -> bool {
    &&& visits.to_multiset() == before.to_multiset()
    &&& outs.len() == visits.len()
    &&& forall|n: int| 0 <= n < visits.len() ==> call_ensures(f, (visits[n],), outs[n])
}

/// A value occurring at two positions of a sequence occurs at least twice
/// in its multiset.
proof fn lemma_two_positions_give_count<A>(s: Seq<A>, i: int, j: int)
    requires
        0 <= i < j < s.len(),
        s[i] == s[j],
    ensures
        s.to_multiset().count(s[i]) >= 2,
{
    broadcast use vstd::seq_lib::group_to_multiset_ensures;

    let s2 = s.remove(j);
    assert(s2.to_multiset() =~= s.to_multiset().remove(s[j]));
    assert(s2[i] == s[i]);
    assert(s2.contains(s[i]));
    assert(s2.to_multiset().count(s[i]) > 0);
}

/// A value occurring at least twice in a sequence's multiset occurs at
/// two positions of the sequence.
proof fn lemma_count_gives_two_positions<A>(s: Seq<A>, x: A)
    requires
        s.to_multiset().count(x) >= 2,
    ensures
        exists|i: int, j: int| #![auto] 0 <= i < j < s.len() && s[i] == x && s[j] == x,
{
    broadcast use vstd::seq_lib::group_to_multiset_ensures;

    assert(s.contains(x));
    let i = choose|i: int| 0 <= i < s.len() && s[i] == x;
    let s2 = s.remove(i);
    assert(s2.to_multiset() =~= s.to_multiset().remove(x));
    assert(s2.to_multiset().count(x) > 0);
    assert(s2.contains(x));
    let p = choose|p: int| 0 <= p < s2.len() && s2[p] == x;
    if p < i {
        assert(s[p] == s2[p]);
        assert(0 <= p < i < s.len() && s[p] == x && s[i] == x);
    } else {
        assert(s[p + 1] == s2[p]);
        assert(0 <= i < p + 1 < s.len() && s[i] == x && s[p + 1] == x);
    }
}

/// Two items with equal keys in `s` give two items with equal keys in any
/// permutation `t` of `s`.
proof fn lemma_duplicate_key_transfer<T, K: OrdVecKey<T>>(s: Seq<T>, t: Seq<T>, p: int, q: int)
    requires
        s.to_multiset() == t.to_multiset(),
        0 <= p < q < s.len(),
        K::skey(s[p]) == K::skey(s[q]),
    ensures
        exists|i: int, j: int| #![auto] 0 <= i < j < t.len() && K::skey(t[i]) == K::skey(t[j]),
{
    broadcast use vstd::seq_lib::group_to_multiset_ensures;

    if s[p] == s[q] {
        lemma_two_positions_give_count(s, p, q);
        lemma_count_gives_two_positions(t, s[p]);
        let (i, j) = choose|i: int, j: int| #![auto]
            0 <= i < j < t.len() && t[i] == s[p] && t[j] == s[p];
        assert(0 <= i < j < t.len() && K::skey(t[i]) == K::skey(t[j]));
    } else {
        assert(s.contains(s[p]) && s.contains(s[q]));
        assert(t.to_multiset().count(s[p]) > 0 && t.to_multiset().count(s[q]) > 0);
        assert(t.contains(s[p]) && t.contains(s[q]));
        let a = choose|a: int| 0 <= a < t.len() && t[a] == s[p];
        let b = choose|b: int| 0 <= b < t.len() && t[b] == s[q];
        if a < b {
            assert(0 <= a < b < t.len() && K::skey(t[a]) == K::skey(t[b]));
        } else {
            assert(0 <= b < a < t.len() && K::skey(t[b]) == K::skey(t[a]));
        }
    }
}

impl<T, K: OrdVecKey<T>> Default for OrdVec<T, K> {
    /// Creates an empty [`OrdVec`].
    fn default() -> (r: Self)
        ensures
            r@ == Seq::<T>::empty(),
            r.wf(),
    {
        Self::new()
    }
}

/// Order and uniqueness invariants together: strictly ascending keys
/// leave no room for two items with the same key.
pub proof fn lemma_ascending_gives_unique_keys<T, K: OrdVecKey<T>>(s: Seq<T>)
    requires
        ascending_by_key::<T, K>(s),
    ensures
        unique_keys::<T, K>(s),
{
}

/// Lookup correctness: in a key-ordered sequence an item is the only one
/// carrying its key, so looking its key up can yield nothing but the item
/// itself.
pub proof fn lemma_lookup_correctness<T, K: OrdVecKey<T>>(s: Seq<T>, e: T, x: T)
    requires
        ascending_by_key::<T, K>(s),
        s.contains(e),
        s.contains(x),
        K::skey(x) == K::skey(e),
    ensures
        x == e,
{
    let i = choose|i: int| 0 <= i < s.len() && s[i] == e;
    let j = choose|j: int| 0 <= j < s.len() && s[j] == x;
    if i < j {
        assert(K::skey(s[i]) < K::skey(s[j]));
    } else if j < i {
        assert(K::skey(s[j]) < K::skey(s[i]));
    }
}

/// Round trip: there is exactly one key-ascending arrangement of any
/// collection of items, so two ordered sequences holding the same items
/// are equal.
pub proof fn lemma_sorted_arrangement_unique<T, K: OrdVecKey<T>>(a: Seq<T>, b: Seq<T>)
    requires
        ascending_by_key::<T, K>(a),
        ascending_by_key::<T, K>(b),
        a.to_multiset() == b.to_multiset(),
    ensures
        a == b,
    decreases a.len(),
{
    broadcast use vstd::seq_lib::group_to_multiset_ensures;
    broadcast use vstd::multiset::group_multiset_axioms;

    if a.len() == 0 {
        assert(b.to_multiset().len() == 0);
        assert(a =~= b);
    } else {
        assert(a.len() == a.to_multiset().len());
        assert(b.len() == b.to_multiset().len());
        assert(b.len() == a.len());
        assert(a.contains(a[0]));
        assert(b.to_multiset().count(a[0]) > 0);
        assert(b.contains(a[0]));
        let j = choose|j: int| 0 <= j < b.len() && b[j] == a[0];
        if b[0] != a[0] {
            assert(b.contains(b[0]));
            assert(a.to_multiset().count(b[0]) > 0);
            assert(a.contains(b[0]));
            let i = choose|i: int| 0 <= i < a.len() && a[i] == b[0];
            assert(j != 0);
            assert(K::skey(b[0]) < K::skey(b[j]));
            assert(i != 0);
            assert(K::skey(a[0]) < K::skey(a[i]));
            assert(false);
        }
        let ta = a.remove(0);
        let tb = b.remove(0);
        assert(ta.to_multiset() == a.to_multiset().remove(a[0]));
        assert(tb.to_multiset() == b.to_multiset().remove(b[0]));
        assert(ta.to_multiset() == tb.to_multiset());
        assert forall|p: int, q: int| 0 <= p < q < ta.len() implies K::skey(ta[p]) < K::skey(
            ta[q],
        ) by {
            assert(ta[p] == a[p + 1] && ta[q] == a[q + 1]);
        }
        assert forall|p: int, q: int| 0 <= p < q < tb.len() implies K::skey(tb[p]) < K::skey(
            tb[q],
        ) by {
            assert(tb[p] == b[p + 1] && tb[q] == b[q + 1]);
        }
        lemma_sorted_arrangement_unique::<T, K>(ta, tb);
        assert forall|p: int| 0 <= p < a.len() implies a[p] == b[p] by {
            if p > 0 {
                assert(a[p] == ta[p - 1] && b[p] == tb[p - 1]);
            }
        }
        assert(a =~= b);
    }
}

/// Remove-then-lookup: taking the item that carries a key out of a
/// key-ordered sequence leaves no item with that key, and every other
/// item keeps its place relative to the rest.
pub proof fn lemma_remove_then_lookup<T, K: OrdVecKey<T>>(s: Seq<T>, i: int)
    requires
        ascending_by_key::<T, K>(s),
        0 <= i < s.len(),
    ensures
        forall|j: int|
            0 <= j < s.remove(i).len() ==> K::skey(#[trigger] s.remove(i)[j]) != K::skey(s[i]),
        forall|j: int| 0 <= j < i ==> s.remove(i)[j] == s[j],
        forall|j: int| i <= j < s.len() - 1 ==> s.remove(i)[j] == s[j + 1],
{
    assert forall|j: int| 0 <= j < s.remove(i).len() implies K::skey(#[trigger] s.remove(i)[j])
        != K::skey(s[i]) by {
        if j < i {
            assert(s.remove(i)[j] == s[j]);
            assert(K::skey(s[j]) < K::skey(s[i]));
        } else {
            assert(s.remove(i)[j] == s[j + 1]);
            assert(K::skey(s[i]) < K::skey(s[j + 1]));
        }
    }
}

/// Sorts the items by key, non-strictly: items with equal keys stay.
fn sort_by_key<T, K: OrdVecKey<T>>(v: Vec<T>) -> (r: Vec<T>)
    ensures
        r@.to_multiset() == v@.to_multiset(),
        sorted_le_by_key::<T, K>(r@),
{
    broadcast use vstd::seq_lib::group_to_multiset_ensures;

    let mut src = v;
    let ghost orig = src@;
    let mut out: Vec<T> = Vec::new();
    while src.len() > 0
        invariant
            out@.to_multiset().add(src@.to_multiset()) == orig.to_multiset(),
            sorted_le_by_key::<T, K>(out@),
            forall|p: int, q: int|
                0 <= p < out@.len() && 0 <= q < src@.len() ==> K::skey(out@[p]) <= K::skey(
                    src@[q],
                ),
        decreases src@.len(),
    {
        broadcast use vstd::seq_lib::group_to_multiset_ensures;

        let mut m: usize = 0;
        let mut j: usize = 1;
        while j < src.len()
            invariant
                m < j <= src@.len() || (m == 0 && j == 1),
                m < src@.len(),
                src@.len() > 0,
                forall|q: int|
                    0 <= q < j && q < src@.len() ==> K::skey(src@[m as int]) <= K::skey(
                        #[trigger] src@[q],
                    ),
            decreases src@.len() - j,
        {
            if K::get_key(&src[j]) < K::get_key(&src[m]) {
                m = j;
            }
            j += 1;
        }
        let ghost prev_out = out@;
        let ghost prev_src = src@;
        let x = src.remove(m);
        out.push(x);
        proof {
            assert(out@ == prev_out.push(x));
            assert(src@ == prev_src.remove(m as int));
            assert(prev_src.contains(x));
            assert(prev_src.to_multiset().count(x) > 0);
            assert(out@.to_multiset().add(src@.to_multiset()) =~= orig.to_multiset());
            assert forall|p: int, q: int|
                0 <= p < out@.len() && 0 <= q < src@.len() implies K::skey(out@[p]) <= K::skey(
                src@[q],
            ) by {
                if q < m {
                    assert(src@[q] == prev_src[q]);
                } else {
                    assert(src@[q] == prev_src[q + 1]);
                }
                if p < prev_out.len() {
                    assert(out@[p] == prev_out[p]);
                } else {
                    assert(out@[p] == x);
                }
            }
            assert forall|p: int, q: int|
                0 <= p <= q < out@.len() implies K::skey(out@[p]) <= K::skey(out@[q]) by {
                if q < prev_out.len() {
                    assert(out@[p] == prev_out[p] && out@[q] == prev_out[q]);
                } else if p < prev_out.len() {
                    assert(out@[p] == prev_out[p] && out@[q] == x && prev_src[m as int] == x);
                }
            }
        }
    }
    out
}

/// Checks that a key-sorted sequence has no two items with equal keys,
/// which for a sorted sequence means strictly ascending keys.
fn check_unique_keys<T, K: OrdVecKey<T>>(v: &Vec<T>) -> (r: bool)
    requires
        sorted_le_by_key::<T, K>(v@),
    ensures
        r <==> ascending_by_key::<T, K>(v@),
{
    let mut i: usize = 1;
    while i < v.len()
        invariant
            sorted_le_by_key::<T, K>(v@),
            1 <= i,
            v@.len() > 0 ==> i <= v@.len(),
            forall|a: int| 1 <= a < i ==> K::skey(v@[a - 1]) < K::skey(#[trigger] v@[a]),
        decreases v@.len() - i,
    {
        if K::get_key(&v[i - 1]) == K::get_key(&v[i]) {
            assert(!ascending_by_key::<T, K>(v@)) by {
                assert(K::skey(v@[i - 1]) == K::skey(v@[i as int]));
            }
            return false;
        }
        i += 1;
    }
    assert forall|p: int, q: int| 0 <= p < q < v@.len() implies K::skey(v@[p]) < K::skey(
        v@[q],
    ) by {
        assert(K::skey(v@[p]) < K::skey(v@[p + 1]));
        assert(K::skey(v@[p + 1]) <= K::skey(v@[q]));
    }
    true
}

impl<T, K: OrdVecKey<T>> OrdVec<T, K> {
    /// The sequence invariant: items strictly ascending by key.
    pub open spec fn wf(&self) -> bool {
        ascending_by_key::<T, K>(self@)
    }

    /// Creates an empty [`OrdVec`].
    pub fn new() -> (r: Self)
        ensures
            r@ == Seq::<T>::empty(),
            r.wf(),
    {
        OrdVec { items: Vec::new(), key_fn: PhantomData }
    }

    /// Creates an [`OrdVec`] by taking ownership of the given vector and
    /// sorting it according to the key extraction strategy.
    ///
    /// Succeeds exactly when no two input items share a key; the result
    /// then holds the same items, in ascending key order.
    pub fn new_from_unsorted(vec: Vec<T>) -> (r: Result<Self, DuplicateKeyViolation>)
        ensures
            match r {
                Ok(ov) => ov.wf() && ov@.to_multiset() == vec@.to_multiset() && unique_keys::<
                    T,
                    K,
                >(vec@),
                Err(_) => !unique_keys::<T, K>(vec@),
            },
    {
        let ghost orig = vec@;
        let sorted = sort_by_key::<T, K>(vec);
        if check_unique_keys::<T, K>(&sorted) {
            proof {
                if !unique_keys::<T, K>(orig) {
                    let (p, q) = choose|p: int, q: int|
                        0 <= p < q < orig.len() && K::skey(orig[p]) == K::skey(orig[q]);
                    lemma_duplicate_key_transfer::<T, K>(orig, sorted@, p, q);
                    assert(false);
                }
            }
            Ok(OrdVec { items: sorted, key_fn: PhantomData })
        } else {
            proof {
                let (p, q) = choose|p: int, q: int|
                    0 <= p < q < sorted@.len() && !(K::skey(sorted@[p]) < K::skey(sorted@[q]));
                assert(K::skey(sorted@[p]) == K::skey(sorted@[q]));
                lemma_duplicate_key_transfer::<T, K>(sorted@, orig, p, q);
            }
            Err(DuplicateKeyViolation)
        }
    }

    /// Returns the number of items.
    pub fn len(&self) -> (n: usize)
        ensures
            n == self@.len(),
    {
        self.items.len()
    }

    /// Returns `true` if there are no items.
    pub fn is_empty(&self) -> (b: bool)
        ensures
            b <==> self@.len() == 0,
    {
        self.items.is_empty()
    }

    /// Returns a slice of the underlying data, ordered according to the
    /// key extraction strategy.
    pub fn as_slice(&self) -> (r: &[T])
        ensures
            r@ == self@,
    {
        self.items.as_slice()
    }

    /// Binary search for the given key. Returns `Ok` with the position of
    /// the item carrying the key, or `Err` with the position where an item
    /// with that key would have to be inserted.
    fn binary_search_key(&self, k: u64) -> (r: Result<usize, usize>)
        requires
            self.wf(),
        ensures
            match r {
                Ok(i) => i < self@.len() && K::skey(self@[i as int]) == k,
                Err(i) => i <= self@.len() && (forall|j: int|
                    0 <= j < i ==> K::skey(self@[j]) < k) && (forall|j: int|
                    i <= j < self@.len() ==> K::skey(self@[j]) > k),
            },
    {
        let mut lo: usize = 0;
        let mut hi: usize = self.items.len();
        while lo < hi
            invariant
                lo <= hi <= self@.len(),
                self.wf(),
                forall|j: int| 0 <= j < lo ==> K::skey(self@[j]) < k,
                forall|j: int| hi <= j < self@.len() ==> K::skey(self@[j]) > k,
            decreases hi - lo,
        {
            let mid = lo + (hi - lo) / 2;
            let key_mid = K::get_key(&self.items[mid]);
            if key_mid == k {
                return Ok(mid);
            } else if key_mid < k {
                lo = mid + 1;
            } else {
                hi = mid;
            }
        }
        Err(lo)
    }

    /// Returns the index of the item with the given key in the underlying
    /// ordered array, or `None` if no item has that key.
    pub fn get_index_by_key(&self, k: u64) -> (r: Option<usize>)
        requires
            self.wf(),
        ensures
            match r {
                Some(i) => i < self@.len() && K::skey(self@[i as int]) == k,
                None => forall|j: int| 0 <= j < self@.len() ==> K::skey(self@[j]) != k,
            },
    {
        match self.binary_search_key(k) {
            Ok(i) => Some(i),
            Err(_) => None,
        }
    }

    /// Looks up an item by key.
    pub fn get_by_key(&self, k: u64) -> (r: Option<&T>)
        requires
            self.wf(),
        ensures
            match r {
                Some(e) => self@.contains(*e) && K::skey(*e) == k,
                None => forall|j: int| 0 <= j < self@.len() ==> K::skey(self@[j]) != k,
            },
    {
        match self.get_index_by_key(k) {
            Some(i) => Some(&self.items[i]),
            None => None,
        }
    }

    /// Inserts a new item, keeping the sequence ordered by key.
    ///
    /// Returns an error, leaving the sequence unchanged, if an item with
    /// the same key is already present.
    pub fn insert(&mut self, item: T) -> (r: Result<(), DuplicateKeyViolation>)
        requires
            old(self).wf(),
        ensures
            final(self).wf(),
            match r {
                Ok(()) => (forall|j: int|
                    0 <= j < old(self)@.len() ==> K::skey(old(self)@[j]) != K::skey(item))
                    && (exists|i: int| #![auto]
                        0 <= i <= old(self)@.len() && final(self)@ == old(self)@.insert(i, item))
                    && final(self)@.to_multiset() == old(self)@.to_multiset().insert(item),
                Err(_) => final(self)@ == old(self)@ && (exists|j: int|
                    0 <= j < old(self)@.len() && K::skey(#[trigger] old(self)@[j]) == K::skey(
                        item,
                    )),
            },
    {
        broadcast use vstd::seq_lib::group_to_multiset_ensures;

        let n = self.items.len();
        let k = K::get_key(&item);
        let insert_idx: usize;
        if n == 0 {
            insert_idx = n;
        } else {
            let last_key = K::get_key(&self.items[n - 1]);
            if k > last_key {
                assert(forall|j: int|
                    0 <= j < self@.len() ==> K::skey(#[trigger] self@[j]) <= K::skey(
                        self@[n - 1],
                    ));
                insert_idx = n;
            } else {
                match self.binary_search_key(k) {
                    Ok(_) => {
                        return Err(DuplicateKeyViolation);
                    },
                    Err(i) => {
                        insert_idx = i;
                    },
                }
            }
        }
        let ghost prev = self@;
        self.items.insert(insert_idx, item);
        proof {
            let s = prev.insert(insert_idx as int, item);
            assert(self@ == s);
            assert forall|a: int, b: int| 0 <= a < b < s.len() implies K::skey(s[a]) < K::skey(
                s[b],
            ) by {
                if a < insert_idx && b == insert_idx {
                    assert(s[a] == prev[a]);
                } else if a == insert_idx && b > insert_idx {
                    assert(s[b] == prev[b - 1]);
                }
            }
            assert(s.to_multiset() == prev.to_multiset().insert(item)) by {
                vstd::seq_lib::to_multiset_insert(prev, insert_idx as int, item);
            }
        }
        Ok(())
    }

    /// Removes the item with the given key and returns it, or returns
    /// `None` and leaves the sequence unchanged if no item has that key.
    /// The relative order of the remaining items is kept.
    pub fn remove_by_key(&mut self, k: u64) -> (r: Option<T>)
        requires
            old(self).wf(),
        ensures
            final(self).wf(),
            match r {
                Some(x) => K::skey(x) == k && (exists|i: int| #![auto]
                    0 <= i < old(self)@.len() && old(self)@[i] == x && final(self)@ == old(
                        self,
                    )@.remove(i)),
                None => final(self)@ == old(self)@ && (forall|j: int|
                    0 <= j < old(self)@.len() ==> K::skey(#[trigger] old(self)@[j]) != k),
            },
    {
        match self.binary_search_key(k) {
            Ok(i) => {
                let ghost prev = self@;
                let x = self.items.remove(i);
                proof {
                    let s = prev.remove(i as int);
                    assert forall|a: int, b: int| 0 <= a < b < s.len() implies K::skey(s[a])
                        < K::skey(s[b]) by {
                        if a >= i {
                            assert(s[a] == prev[a + 1]);
                        }
                        if b >= i {
                            assert(s[b] == prev[b + 1]);
                        }
                    }
                }
                Some(x)
            },
            Err(_) => None,
        }
    }

    /// Returns a mutable reference to the item with the given key, or
    /// `None` if no item has that key.
    ///
    /// The sequence stays well formed only as long as the caller does not
    /// change the item's key through the reference; the postcondition
    /// records the update so that callers can discharge that obligation.
    pub fn get_mut_by_key(&mut self, k: u64) -> (r: Option<&mut T>)
        requires
            old(self).wf(),
        ensures
            match r {
                Some(e) => K::skey(*e) == k && (exists|i: int| #![auto]
                    0 <= i < old(self)@.len() && *e == old(self)@[i] && final(self)@ == old(
                        self,
                    )@.update(i, *final(e))),
                None => final(self)@ == old(self)@ && final(self).wf() && (forall|j: int|
                    0 <= j < old(self)@.len() ==> K::skey(#[trigger] old(self)@[j]) != k),
            },
    {
        match self.binary_search_key(k) {
            Ok(i) => Some(&mut self.items[i]),
            Err(_) => None,
        }
    }

    /// Applies `f` to every item. An item is replaced by the payload when
    /// `f` returns `Some` (possibly under a new key) and dropped when `f`
    /// returns `None`; the survivors are then re-sorted by key and checked
    /// for duplicate keys.
    ///
    /// Every item present before the call is handed to `f` exactly once,
    /// but the visitation order is explicitly not key order: it is the
    /// order a swap-to-end compaction produces. Callers must not rely on
    /// anything beyond "exactly once per item".
    ///
    /// If two survivors share a key the sequence is cleared and an error
    /// is returned, so that a valid (empty) sequence remains rather than a
    /// half-applied one.
    pub fn retain_map<F: Fn(T) -> Option<T>>(&mut self, f: F) -> (r: Result<
        (),
        DuplicateKeyViolation,
    >)
        requires
            old(self).wf(),
            forall|x: T| old(self)@.contains(x) ==> call_requires(f, (x,)),
        ensures
            final(self).wf(),
            exists|visits: Seq<T>, outs: Seq<Option<T>>|
                #![trigger visits_each_once(f, old(self)@, visits, outs)]
                {
                    &&& visits_each_once(f, old(self)@, visits, outs)
                    &&& match r {
                        Ok(()) => final(self)@.to_multiset() == kept(outs).to_multiset()
                            && unique_keys::<T, K>(kept(outs)),
                        Err(_) => final(self)@ == Seq::<T>::empty() && !unique_keys::<T, K>(
                            kept(outs),
                        ),
                    }
                },
    {
        broadcast use vstd::seq_lib::group_to_multiset_ensures;
        broadcast use vstd::multiset::group_multiset_axioms;

        let ghost orig = self@;
        let ghost mut visits: Seq<T> = Seq::empty();
        let ghost mut outs: Seq<Option<T>> = Seq::empty();
        proof {
            assert(orig.subrange(0, orig.len() as int) =~= orig);
            assert(Seq::<T>::empty().to_multiset() =~= Multiset::<T>::empty());
            assert(Multiset::<T>::empty().add(orig.to_multiset()) =~= orig.to_multiset());
        }
        let mut i: usize = 0;
        while i < self.items.len()
            invariant
                i <= self@.len(),
                outs.len() == visits.len(),
                forall|n: int| 0 <= n < visits.len() ==> call_ensures(f, (visits[n],), outs[n]),
                forall|x: T| orig.contains(x) ==> call_requires(f, (x,)),
                self@.subrange(0, i as int) == kept(outs),
                visits.to_multiset().add(
                    self@.subrange(i as int, self@.len() as int).to_multiset(),
                ) == orig.to_multiset(),
            decreases self@.len() - i,
        {
            broadcast use vstd::seq_lib::group_to_multiset_ensures;
            broadcast use vstd::multiset::group_multiset_axioms;

            let ghost prev = self@;
            let ghost n = prev.len() as int;
            let x = self.items.swap_remove(i);
            proof {
                let u_prev = prev.subrange(i as int, n);
                let u_now = self@.subrange(i as int, n - 1);
                assert(u_prev.to_multiset().count(x) > 0) by {
                    assert(u_prev[0] == x);
                    assert(u_prev.contains(x));
                }
                assert(orig.to_multiset().count(x) > 0);
                assert(orig.contains(x));
                if i as int == n - 1 {
                    assert(u_prev =~= Seq::empty().push(x));
                    assert(u_now =~= Seq::<T>::empty());
                    assert(u_prev.to_multiset() =~= u_now.to_multiset().insert(x));
                } else {
                    let mid = prev.subrange(i as int + 1, n - 1);
                    assert(u_prev =~= Seq::empty().push(x) + mid + Seq::empty().push(
                        prev[n - 1],
                    ));
                    assert(u_now =~= Seq::empty().push(prev[n - 1]) + mid);
                    vstd::seq_lib::lemma_multiset_commutative(
                        Seq::empty().push(x) + mid,
                        Seq::empty().push(prev[n - 1]),
                    );
                    vstd::seq_lib::lemma_multiset_commutative(Seq::empty().push(x), mid);
                    vstd::seq_lib::lemma_multiset_commutative(
                        Seq::empty().push(prev[n - 1]),
                        mid,
                    );
                    assert(u_prev.to_multiset() =~= u_now.to_multiset().insert(x));
                }
                assert(self@.subrange(0, i as int) =~= prev.subrange(0, i as int));
                visits = visits.push(x);
            }
            let res = f(x);
            proof {
                let ghost prior_outs = outs;
                outs = outs.push(res);
                assert(outs.drop_last() =~= prior_outs);
            }
            let ghost compacted = self@;
            match res {
                Some(new_item) => {
                    if i < self.items.len() {
                        let mut displaced = new_item;
                        self.items.set_and_swap(i, &mut displaced);
                        self.items.push(displaced);
                        proof {
                            assert(self@.subrange(0, i as int + 1) =~= kept(outs));
                            assert(self@.subrange(i as int + 1, self@.len() as int)
                                .to_multiset() =~= compacted.subrange(
                                i as int,
                                compacted.len() as int,
                            ).to_multiset()) by {
                                let tail = compacted.subrange(i as int + 1, compacted.len() as int);
                                assert(self@.subrange(i as int + 1, self@.len() as int) =~= tail
                                    + Seq::empty().push(compacted[i as int]));
                                assert(compacted.subrange(i as int, compacted.len() as int)
                                    =~= Seq::empty().push(compacted[i as int]) + tail);
                                vstd::seq_lib::lemma_multiset_commutative(
                                    tail,
                                    Seq::empty().push(compacted[i as int]),
                                );
                                vstd::seq_lib::lemma_multiset_commutative(
                                    Seq::empty().push(compacted[i as int]),
                                    tail,
                                );
                            }
                        }
                    } else {
                        self.items.push(new_item);
                        proof {
                            assert(self@.subrange(0, i as int + 1) =~= kept(outs));
                            assert(self@.subrange(i as int + 1, self@.len() as int)
                                =~= compacted.subrange(i as int, compacted.len() as int));
                        }
                    }
                    i += 1;
                },
                None => {
                    proof {
                        assert(self@.subrange(0, i as int) =~= kept(outs));
                    }
                },
            }
        }
        proof {
            assert(self@.subrange(0, i as int) =~= self@);
            assert(self@.subrange(i as int, self@.len() as int) =~= Seq::<T>::empty());
            assert(visits.to_multiset() =~= orig.to_multiset());
        }
        let ghost survivors = kept(outs);
        let mut gathered: Vec<T> = Vec::new();
        core::mem::swap(&mut gathered, &mut self.items);
        let sorted = sort_by_key::<T, K>(gathered);
        if check_unique_keys::<T, K>(&sorted) {
            proof {
                if !unique_keys::<T, K>(survivors) {
                    let (p, q) = choose|p: int, q: int|
                        0 <= p < q < survivors.len() && K::skey(survivors[p]) == K::skey(
                            survivors[q],
                        );
                    lemma_duplicate_key_transfer::<T, K>(survivors, sorted@, p, q);
                    assert(false);
                }
            }
            self.items = sorted;
            proof {
                assert(visits_each_once(f, orig, visits, outs));
            }
            Ok(())
        } else {
            proof {
                let (p, q) = choose|p: int, q: int|
                    0 <= p < q < sorted@.len() && !(K::skey(sorted@[p]) < K::skey(sorted@[q]));
                assert(K::skey(sorted@[p]) == K::skey(sorted@[q]));
                lemma_duplicate_key_transfer::<T, K>(sorted@, survivors, p, q);
                assert(visits_each_once(f, orig, visits, outs));
            }
            Err(DuplicateKeyViolation)
        }
    }
}

} // verus!

