//! An ordered map kept as a strictly sorted vector of entries.
//!
//! The view of a [`SortedMap`] is the sequence of its entries in key order, so
//! that lookup, insertion, removal and traversal are all stated over the one
//! sequence: [`find`], [`put`], [`del`] and plain indexing.

use vstd::prelude::*;

verus! {

/// A key with a total order, given by a pair of integers compared
/// lexicographically.
pub trait SortKey: Sized {
    /// The integer compared first.
    spec fn major(self) -> int;

    /// The integer that breaks ties.
    spec fn minor(self) -> int;

    /// Keys of equal rank are equal.
    proof fn same_rank(a: Self, b: Self)
        requires
            a.major() == b.major(),
            a.minor() == b.minor(),
        ensures
            a == b,
    ;

    /// Whether `self` comes strictly before `other`.
    fn precedes(&self, other: &Self) -> (r: bool)
        ensures
            r == (self.major() < other.major() || (self.major() == other.major()
                && self.minor() < other.minor())),
    ;
}

/// `a` comes strictly before `b`.
pub open spec fn key_lt<K: SortKey>(a: K, b: K) -> bool {
    a.major() < b.major() || (a.major() == b.major() && a.minor() < b.minor())
}

impl SortKey for i64 {
    open spec fn major(self) -> int {
        self as int
    }

    open spec fn minor(self) -> int {
        0
    }

    proof fn same_rank(a: Self, b: Self) {
    }

    fn precedes(&self, other: &Self) -> (r: bool) {
        *self < *other
    }
}

impl SortKey for u64 {
    open spec fn major(self) -> int {
        self as int
    }

    open spec fn minor(self) -> int {
        0
    }

    proof fn same_rank(a: Self, b: Self) {
    }

    fn precedes(&self, other: &Self) -> (r: bool) {
        *self < *other
    }
}

impl SortKey for (u64, u64) {
    open spec fn major(self) -> int {
        self.0 as int
    }

    open spec fn minor(self) -> int {
        self.1 as int
    }

    proof fn same_rank(a: Self, b: Self) {
    }

    fn precedes(&self, other: &Self) -> (r: bool) {
        self.0 < other.0 || (self.0 == other.0 && self.1 < other.1)
    }
}

/// The entries are in strictly increasing key order.
pub open spec fn sorted<K: SortKey, V>(s: Seq<(K, V)>) -> bool {
    forall|i: int, j: int| 0 <= i < j < s.len() ==> key_lt(#[trigger] s[i].0, #[trigger] s[j].0)
}

/// How many entries have a key strictly before `k`.
pub open spec fn rank<K: SortKey, V>(s: Seq<(K, V)>, k: K) -> nat
    decreases s.len(),
{
    if s.len() == 0 {
        0
    } else {
        rank(s.drop_last(), k) + (if key_lt(s.last().0, k) {
            1nat
        } else {
            0nat
        })
    }
}

/// An entry with key `k` is present.
pub open spec fn holds<K: SortKey, V>(s: Seq<(K, V)>, k: K) -> bool {
    rank(s, k) < s.len() && s[rank(s, k) as int].0 == k
}

/// The value stored under `k`.
pub open spec fn find<K: SortKey, V>(s: Seq<(K, V)>, k: K) -> Option<V> {
    if holds(s, k) {
        Some(s[rank(s, k) as int].1)
    } else {
        None
    }
}

/// The entries after storing `v` under `k`.
pub open spec fn put<K: SortKey, V>(s: Seq<(K, V)>, k: K, v: V) -> Seq<(K, V)> {
    if holds(s, k) {
        s.update(rank(s, k) as int, (k, v))
    } else {
        s.insert(rank(s, k) as int, (k, v))
    }
}

/// The entries after removing `k`.
pub open spec fn del<K: SortKey, V>(s: Seq<(K, V)>, k: K) -> Seq<(K, V)> {
    if holds(s, k) {
        s.remove(rank(s, k) as int)
    } else {
        s
    }
}

/// A position that separates the keys before `k` from the rest is `rank(s, k)`.
pub proof fn lemma_rank_is<K: SortKey, V>(s: Seq<(K, V)>, k: K, p: int)
    requires
        0 <= p <= s.len(),
        forall|i: int| 0 <= i < p ==> key_lt(#[trigger] s[i].0, k),
        forall|i: int| p <= i < s.len() ==> !key_lt(#[trigger] s[i].0, k),
    ensures
        rank(s, k) == p,
    decreases s.len(),
{
    if s.len() > 0 {
        let t = s.drop_last();
        if p == s.len() {
            lemma_rank_is(t, k, p - 1);
        } else {
            lemma_rank_is(t, k, p);
        }
    }
}

/// In sorted entries, `rank(s, k)` separates the keys before `k` from the rest.
pub proof fn lemma_rank_splits<K: SortKey, V>(s: Seq<(K, V)>, k: K)
    requires
        sorted(s),
    ensures
        rank(s, k) <= s.len(),
        forall|i: int| 0 <= i < rank(s, k) ==> key_lt(#[trigger] s[i].0, k),
        forall|i: int| rank(s, k) <= i < s.len() ==> !key_lt(#[trigger] s[i].0, k),
    decreases s.len(),
{
    if s.len() > 0 {
        let t = s.drop_last();
        assert(sorted(t)) by {
            assert forall|i: int, j: int| 0 <= i < j < t.len() implies key_lt(
                #[trigger] t[i].0,
                #[trigger] t[j].0,
            ) by {
                assert(t[i] == s[i] && t[j] == s[j]);
            }
        }
        lemma_rank_splits(t, k);
        let p = rank(t, k) as int;
        assert forall|i: int| 0 <= i < rank(s, k) implies key_lt(#[trigger] s[i].0, k) by {
            if i < p {
                assert(t[i] == s[i]);
            } else {
                // Only reached when the last key is before `k`.
                if i < s.len() - 1 {
                    assert(key_lt(s[i].0, s[s.len() - 1].0));
                }
            }
        }
        assert forall|i: int| rank(s, k) <= i < s.len() implies !key_lt(#[trigger] s[i].0, k) by {
            if i < s.len() - 1 {
                assert(t[i] == s[i]);
            }
        }
        if key_lt(s.last().0, k) && p < t.len() {
            assert(!key_lt(t[p].0, k));
            assert(t[p] == s[p]);
            assert(key_lt(s[p].0, s[s.len() - 1].0));
        }
    }
}

/// An entry at position `i` of sorted entries is the one found under its key.
pub proof fn lemma_entry_found<K: SortKey, V>(s: Seq<(K, V)>, i: int)
    requires
        sorted(s),
        0 <= i < s.len(),
    ensures
        rank(s, s[i].0) == i,
        holds(s, s[i].0),
        find(s, s[i].0) == Some(s[i].1),
{
    lemma_rank_is(s, s[i].0, i);
}

/// Storing keeps the entries sorted, and changes the lookup of `k` only.
pub proof fn lemma_put<K: SortKey, V>(s: Seq<(K, V)>, k: K, v: V)
    requires
        sorted(s),
    ensures
        sorted(put(s, k, v)),
        put(s, k, v).len() == s.len() + (if holds(s, k) {
            0int
        } else {
            1int
        }),
        forall|q: K|
            #![trigger find(put(s, k, v), q)]
            find(put(s, k, v), q) == (if q == k {
                Some(v)
            } else {
                find(s, q)
            }),
{
    let p = rank(s, k) as int;
    let t = put(s, k, v);
    lemma_rank_splits(s, k);
    if !holds(s, k) && p < s.len() {
        if s[p].0.major() == k.major() && s[p].0.minor() == k.minor() {
            K::same_rank(s[p].0, k);
        }
    }
    assert forall|i: int, j: int| 0 <= i < j < t.len() implies key_lt(
        #[trigger] t[i].0,
        #[trigger] t[j].0,
    ) by {
        if holds(s, k) {
            assert(t[i].0 == s[i].0);
            assert(t[j].0 == s[j].0);
        } else {
            if j < p {
                assert(t[i] == s[i] && t[j] == s[j]);
            } else if j == p {
                assert(t[i] == s[i]);
                assert(key_lt(s[i].0, k));
            } else {
                assert(t[j] == s[j - 1]);
                if i < p {
                    assert(t[i] == s[i]);
                    assert(key_lt(s[i].0, s[j - 1].0));
                } else if i == p {
                    assert(!key_lt(s[j - 1].0, k));
                    if s[j - 1].0.major() == k.major() && s[j - 1].0.minor() == k.minor() {
                        K::same_rank(s[j - 1].0, k);
                        lemma_entry_found(s, j - 1);
                    }
                } else {
                    assert(t[i] == s[i - 1]);
                }
            }
        }
    }
    assert forall|q: K|
        #![trigger find(t, q)]
        find(t, q) == (if q == k {
            Some(v)
        } else {
            find(s, q)
        }) by {
        lemma_rank_splits(t, q);
        lemma_rank_splits(s, q);
        if q == k {
            assert(t[p] == (k, v));
            lemma_entry_found(t, p);
        } else {
            if holds(s, q) {
                let i = rank(s, q) as int;
                let i2 = if holds(s, k) || i < p {
                    i
                } else {
                    i + 1
                };
                assert(t[i2] == s[i]) by {
                    if holds(s, k) {
                        assert(s[p].0 == k);
                    }
                }
                lemma_entry_found(t, i2);
            }
            if holds(t, q) {
                let i = rank(t, q) as int;
                assert(i != p);
                let i2 = if holds(s, k) || i < p {
                    i
                } else {
                    i - 1
                };
                assert(t[i] == s[i2]);
                lemma_entry_found(s, i2);
            }
        }
    }
}

/// Removing keeps the entries sorted, and changes the lookup of `k` only.
pub proof fn lemma_del<K: SortKey, V>(s: Seq<(K, V)>, k: K)
    requires
        sorted(s),
    ensures
        sorted(del(s, k)),
        del(s, k).len() == s.len() - (if holds(s, k) {
            1int
        } else {
            0int
        }),
        forall|q: K|
            #![trigger find(del(s, k), q)]
            find(del(s, k), q) == (if q == k {
                None
            } else {
                find(s, q)
            }),
{
    let p = rank(s, k) as int;
    let t = del(s, k);
    lemma_rank_splits(s, k);
    if holds(s, k) {
        assert forall|i: int, j: int| 0 <= i < j < t.len() implies key_lt(
            #[trigger] t[i].0,
            #[trigger] t[j].0,
        ) by {
            let i2 = if i < p {
                i
            } else {
                i + 1
            };
            let j2 = if j < p {
                j
            } else {
                j + 1
            };
            assert(t[i] == s[i2] && t[j] == s[j2]);
        }
        assert forall|q: K|
            #![trigger find(t, q)]
            find(t, q) == (if q == k {
                None
            } else {
                find(s, q)
            }) by {
            lemma_rank_splits(t, q);
            lemma_rank_splits(s, q);
            if holds(t, q) {
                let i = rank(t, q) as int;
                let i2 = if i < p {
                    i
                } else {
                    i + 1
                };
                assert(t[i] == s[i2]);
                lemma_entry_found(s, i2);
            }
            if q != k && holds(s, q) {
                let i = rank(s, q) as int;
                assert(i != p);
                let i2 = if i < p {
                    i
                } else {
                    i - 1
                };
                assert(t[i2] == s[i]);
                lemma_entry_found(t, i2);
            }
        }
    }
}

/// Sorted entries are determined by their lookups.
pub proof fn lemma_same_finds<K: SortKey, V>(s: Seq<(K, V)>, t: Seq<(K, V)>)
    requires
        sorted(s),
        sorted(t),
        forall|k: K| #[trigger] find(s, k) == find(t, k),
    ensures
        s == t,
    decreases s.len(),
{
    if s.len() == 0 {
        if t.len() > 0 {
            lemma_entry_found(t, 0);
            assert(find(s, t[0].0) == find(t, t[0].0));
        }
        assert(s =~= t);
    } else {
        lemma_entry_found(s, 0);
        let k = s[0].0;
        assert(find(s, k) == find(t, k));
        assert(holds(t, k));
        let p = rank(t, k) as int;
        if p > 0 {
            lemma_entry_found(t, 0);
            let h = t[0].0;
            assert(find(s, h) == find(t, h));
            let q = rank(s, h) as int;
            assert(s[q].0 == h);
            assert(key_lt(t[0].0, t[p].0));
            if q > 0 {
                assert(key_lt(s[0].0, s[q].0));
            }
            assert(false);
        }
        assert(s[0] == t[0]);
        lemma_del(s, k);
        lemma_del(t, k);
        assert(del(s, k) == s.remove(0));
        assert(del(t, k) == t.remove(0));
        assert forall|q: K| #[trigger] find(s.remove(0), q) == find(t.remove(0), q) by {
            assert(find(s, q) == find(t, q));
            assert(find(del(s, k), q) == find(del(t, k), q));
        }
        lemma_same_finds(s.remove(0), t.remove(0));
        assert(s =~= seq![s[0]] + s.remove(0));
        assert(t =~= seq![t[0]] + t.remove(0));
    }
}

/// Dropping the last entry loses its key only.
pub proof fn lemma_drop_last<K: SortKey, V>(s: Seq<(K, V)>)
    requires
        sorted(s),
        s.len() > 0,
    ensures
        sorted(s.drop_last()),
        find(s, s.last().0) == Some(s.last().1),
        forall|k: K|
            #![trigger find(s.drop_last(), k)]
            find(s.drop_last(), k) == (if k == s.last().0 {
                None
            } else {
                find(s, k)
            }),
{
    let n = s.len() - 1;
    lemma_entry_found(s, n);
    lemma_del(s, s[n].0);
    assert(del(s, s[n].0) =~= s.drop_last());
}

/// Every key is before `k`.
pub open spec fn all_before<K: SortKey, V>(s: Seq<(K, V)>, k: K) -> bool {
    forall|i: int| 0 <= i < s.len() ==> key_lt(#[trigger] s[i].0, k)
}

/// A key after all the others is absent.
pub proof fn lemma_before_absent<K: SortKey, V>(s: Seq<(K, V)>, k: K)
    requires
        all_before(s, k),
    ensures
        !holds(s, k),
        rank(s, k) == s.len(),
{
    lemma_rank_is(s, k, s.len() as int);
}

/// A key after all the others goes to the end.
pub proof fn lemma_append<K: SortKey, V>(s: Seq<(K, V)>, k: K, v: V)
    requires
        all_before(s, k),
    ensures
        put(s, k, v) == s.push((k, v)),
{
    lemma_before_absent(s, k);
    assert(put(s, k, v) =~= s.push((k, v)));
}

/// A map whose entries are kept in key order.
pub struct SortedMap<K: SortKey, V> {
    items: Vec<(K, V)>,
}

impl<K: SortKey, V> View for SortedMap<K, V> {
    type V = Seq<(K, V)>;

    closed spec fn view(&self) -> Seq<(K, V)> {
        self.items@
    }
}

impl<K: SortKey, V> SortedMap<K, V> {
    #[verifier::type_invariant]
    spec fn in_order(self) -> bool {
        sorted(self.items@)
    }

    /// An empty map.
    pub fn new() -> (r: Self)
        ensures
            r@ == Seq::<(K, V)>::empty(),
    {
        SortedMap { items: Vec::new() }
    }

    /// How many entries there are.
    pub fn len(&self) -> (n: usize)
        ensures
            n == self@.len(),
            sorted(self@),
    {
        proof {
            use_type_invariant(self);
        }
        self.items.len()
    }

    /// Whether there is no entry.
    pub fn is_empty(&self) -> (r: bool)
        ensures
            r == (self@.len() == 0),
            sorted(self@),
    {
        proof {
            use_type_invariant(self);
        }
        self.items.len() == 0
    }

    /// Binary search for the position of `k`.
    fn position(&self, k: &K) -> (p: usize)
        ensures
            p == rank(self@, *k),
            p <= self@.len(),
            sorted(self@),
    {
        proof {
            use_type_invariant(self);
            lemma_rank_splits(self@, *k);
        }
        let mut lo: usize = 0;
        let mut hi: usize = self.items.len();
        while lo < hi
            invariant
                sorted(self.items@),
                0 <= lo <= hi <= self.items@.len(),
                forall|i: int| 0 <= i < lo ==> key_lt(#[trigger] self.items@[i].0, *k),
                forall|i: int|
                    hi <= i < self.items@.len() ==> !key_lt(#[trigger] self.items@[i].0, *k),
            decreases hi - lo,
        {
            let mid: usize = lo + (hi - lo) / 2;
            if self.items[mid].0.precedes(k) {
                proof {
                    assert forall|i: int| 0 <= i < mid + 1 implies key_lt(
                        #[trigger] self.items@[i].0,
                        *k,
                    ) by {
                        if i < mid {
                            assert(key_lt(self.items@[i].0, self.items@[mid as int].0));
                        }
                    }
                }
                lo = mid + 1;
            } else {
                proof {
                    assert forall|i: int| mid <= i < self.items@.len() implies !key_lt(
                        #[trigger] self.items@[i].0,
                        *k,
                    ) by {
                        if i > mid {
                            assert(key_lt(self.items@[mid as int].0, self.items@[i].0));
                        }
                    }
                }
                hi = mid;
            }
        }
        proof {
            lemma_rank_is(self.items@, *k, lo as int);
        }
        lo
    }

    /// Whether the entry at position `p` (the position of `k`) has key `k`.
    fn matches_at(&self, p: usize, k: &K) -> (r: bool)
        requires
            p == rank(self@, *k),
        ensures
            r == holds(self@, *k),
    {
        proof {
            use_type_invariant(self);
            lemma_rank_splits(self@, *k);
        }
        if p < self.items.len() {
            let r = !k.precedes(&self.items[p].0);
            proof {
                let q = self.items@[p as int].0;
                assert(!key_lt(q, *k));
                if r {
                    K::same_rank(q, *k);
                }
            }
            r
        } else {
            false
        }
    }

    /// The value under `k`.
    pub fn get(&self, k: &K) -> (r: Option<&V>)
        ensures
            match r {
                Some(v) => find(self@, *k) == Some(*v),
                None => find(self@, *k) is None,
            },
    {
        let p = self.position(k);
        if self.matches_at(p, k) {
            Some(&self.items[p].1)
        } else {
            None
        }
    }

    /// Whether `k` has an entry.
    pub fn contains_key(&self, k: &K) -> (r: bool)
        ensures
            r == holds(self@, *k),
    {
        let p = self.position(k);
        self.matches_at(p, k)
    }

    /// Stores `v` under `k`.
    pub fn insert(&mut self, k: K, v: V)
        ensures
            final(self)@ == put(old(self)@, k, v),
            sorted(final(self)@),
    {
        let p = self.position(&k);
        let found = self.matches_at(p, &k);
        proof {
            use_type_invariant(&*self);
            lemma_put(self@, k, v);
        }
        let mut items: Vec<(K, V)> = Vec::new();
        core::mem::swap(&mut items, &mut self.items);
        if found {
            items.set(p, (k, v));
        } else {
            items.insert(p, (k, v));
        }
        self.items = items;
    }

    /// Removes the entry of `k`, if there is one.
    pub fn remove(&mut self, k: &K) -> (r: Option<V>)
        ensures
            final(self)@ == del(old(self)@, *k),
            r == find(old(self)@, *k),
            sorted(final(self)@),
    {
        let p = self.position(k);
        let found = self.matches_at(p, k);
        proof {
            use_type_invariant(&*self);
            lemma_del(self@, *k);
        }
        if found {
            let mut items: Vec<(K, V)> = Vec::new();
            core::mem::swap(&mut items, &mut self.items);
            let e = items.remove(p);
            self.items = items;
            Some(e.1)
        } else {
            None
        }
    }

    /// Removes every entry.
    pub fn clear(&mut self)
        ensures
            final(self)@ == Seq::<(K, V)>::empty(),
    {
        self.items = Vec::new();
    }

    /// The key of the entry at position `i`.
    pub fn key_at(&self, i: usize) -> (r: &K)
        requires
            i < self@.len(),
        ensures
            *r == self@[i as int].0,
    {
        &self.items[i].0
    }

    /// The value of the entry at position `i`.
    pub fn value_at(&self, i: usize) -> (r: &V)
        requires
            i < self@.len(),
        ensures
            *r == self@[i as int].1,
    {
        &self.items[i].1
    }

    /// Replaces the value of the entry at position `i`.
    pub fn set_value_at(&mut self, i: usize, v: V)
        requires
            i < old(self)@.len(),
        ensures
            final(self)@ == old(self)@.update(i as int, (old(self)@[i as int].0, v)),
            sorted(final(self)@),
    {
        proof {
            use_type_invariant(&*self);
        }
        let ghost before = self.items@;
        let mut items: Vec<(K, V)> = Vec::new();
        core::mem::swap(&mut items, &mut self.items);
        items[i].1 = v;
        proof {
            let after = before.update(i as int, (before[i as int].0, v));
            assert(items@ =~= after);
            assert forall|a: int, b: int| 0 <= a < b < after.len() implies key_lt(
                #[trigger] after[a].0,
                #[trigger] after[b].0,
            ) by {
                assert(after[a].0 == before[a].0 && after[b].0 == before[b].0);
            }
        }
        self.items = items;
    }

    /// Removes the entry with the smallest key.
    pub fn pop_first(&mut self) -> (r: Option<(K, V)>)
        ensures
            old(self)@.len() == 0 ==> r is None && final(self)@ == old(self)@,
            old(self)@.len() > 0 ==> r == Some(old(self)@[0]) && final(self)@ == old(
                self,
            )@.skip(1),
            sorted(final(self)@),
    {
        proof {
            use_type_invariant(&*self);
        }
        if self.items.len() == 0 {
            None
        } else {
            let ghost before = self.items@;
            let mut items: Vec<(K, V)> = Vec::new();
            core::mem::swap(&mut items, &mut self.items);
            let e = items.remove(0);
            proof {
                assert(items@ =~= before.skip(1));
                assert(sorted(items@));
            }
            self.items = items;
            Some(e)
        }
    }

    /// Removes the entry with the largest key.
    pub fn pop_last(&mut self) -> (r: Option<(K, V)>)
        ensures
            old(self)@.len() == 0 ==> r is None && final(self)@ == old(self)@,
            old(self)@.len() > 0 ==> r == Some(old(self)@.last()) && final(self)@ == old(
                self,
            )@.drop_last(),
            sorted(final(self)@),
    {
        proof {
            use_type_invariant(&*self);
        }
        let mut items: Vec<(K, V)> = Vec::new();
        core::mem::swap(&mut items, &mut self.items);
        let r = items.pop();
        proof {
            assert(sorted(items@));
        }
        self.items = items;
        r
    }
}

impl<K: SortKey + Copy, V: Copy> SortedMap<K, V> {
    /// A map with the same entries.
    pub fn duplicate(&self) -> (r: Self)
        ensures
            r@ == self@,
            sorted(self@),
    {
        proof {
            use_type_invariant(self);
        }
        let mut items: Vec<(K, V)> = Vec::new();
        let mut i: usize = 0;
        while i < self.items.len()
            invariant
                i <= self.items@.len(),
                items@ == self.items@.take(i as int),
            decreases self.items@.len() - i,
        {
            items.push((self.items[i].0, self.items[i].1));
            i += 1;
        }
        assert(items@ =~= self.items@);
        SortedMap { items }
    }
}

} // verus!
