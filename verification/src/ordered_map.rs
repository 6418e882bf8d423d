//! A map from numbers to values that keeps its entries in ascending order of the keys.

use vstd::prelude::*;

verus! {

/// A map that is walked in ascending order of its keys.
pub struct OrderedMap<V> {
    keys: Vec<u64>,
    values: Vec<V>,
}

// ---------------------------------------------------------------------------------------------
// The model: a sequence of keys and values with ascending keys

/// The keys ascend, so that none occurs twice.
pub open spec fn sorted<V>(s: Seq<(u64, V)>) -> bool {
    forall|i: int, j: int| 0 <= i < j < s.len() ==> (#[trigger] s[i]).0 < (#[trigger] s[j]).0
}

/// How many entries come before a key.
pub open spec fn rank<V>(s: Seq<(u64, V)>, key: u64) -> nat
    decreases s.len(),
{
    if s.len() == 0 {
        0
    } else if s.last().0 < key {
        s.len()
    } else {
        rank(s.drop_last(), key)
    }
}

pub open spec fn has_key<V>(s: Seq<(u64, V)>, key: u64) -> bool {
    rank(s, key) < s.len() && s[rank(s, key) as int].0 == key
}

/// The value of a key.
pub open spec fn lookup<V>(s: Seq<(u64, V)>, key: u64) -> Option<V> {
    if has_key(s, key) {
        Some(s[rank(s, key) as int].1)
    } else {
        None
    }
}

/// The entries with a value for a key, in place of an earlier one.
pub open spec fn put<V>(s: Seq<(u64, V)>, key: u64, value: V) -> Seq<(u64, V)> {
    if has_key(s, key) {
        s.update(rank(s, key) as int, (key, value))
    } else {
        s.insert(rank(s, key) as int, (key, value))
    }
}

/// The entries without a key.
pub open spec fn without<V>(s: Seq<(u64, V)>, key: u64) -> Seq<(u64, V)> {
    if has_key(s, key) {
        s.remove(rank(s, key) as int)
    } else {
        s
    }
}

/// The entries after the first `n` of others were put in one after the other.
pub open spec fn put_upto<V>(base: Seq<(u64, V)>, s: Seq<(u64, V)>, n: nat) -> Seq<(u64, V)>
    decreases n,
{
    if n == 0 {
        base
    } else {
        put(put_upto(base, s, (n - 1) as nat), s[n - 1].0, s[n - 1].1)
    }
}

/// The first `n` entries put in one after the other.
pub open spec fn put_all<V>(s: Seq<(u64, V)>, n: nat) -> Seq<(u64, V)> {
    put_upto(Seq::empty(), s, n)
}

pub proof fn lemma_rank<V>(s: Seq<(u64, V)>, key: u64)
    requires
        sorted(s),
    ensures
        rank(s, key) <= s.len(),
        forall|i: int| 0 <= i < rank(s, key) ==> (#[trigger] s[i]).0 < key,
        forall|i: int| rank(s, key) <= i < s.len() ==> (#[trigger] s[i]).0 >= key,
    decreases s.len(),
{
    if s.len() > 0 && s.last().0 >= key {
        let init = s.drop_last();
        lemma_rank(init, key);
        assert forall|i: int| 0 <= i < rank(s, key) implies (#[trigger] s[i]).0 < key by {
            assert(init[i] == s[i]);
        }
        assert forall|i: int| rank(s, key) <= i < s.len() implies (#[trigger] s[i]).0 >= key by {
            if i < init.len() {
                assert(init[i] == s[i]);
            }
        }
    }
}

/// The rank is the only place where the keys before are smaller and those from there on are not.
pub proof fn lemma_rank_is<V>(s: Seq<(u64, V)>, key: u64, r: nat)
    requires
        sorted(s),
        r <= s.len(),
        r > 0 ==> s[r - 1].0 < key,
        r < s.len() ==> s[r as int].0 >= key,
    ensures
        rank(s, key) == r,
{
    lemma_rank(s, key);
}

pub proof fn lemma_rank_at<V>(s: Seq<(u64, V)>, i: int)
    requires
        sorted(s),
        0 <= i < s.len(),
    ensures
        rank(s, s[i].0) == i,
        has_key(s, s[i].0),
        lookup(s, s[i].0) == Some(s[i].1),
{
    lemma_rank_is(s, s[i].0, i as nat);
}

/// A key that some entry has is found.
pub proof fn lemma_has_key<V>(s: Seq<(u64, V)>, key: u64)
    requires
        sorted(s),
    ensures
        has_key(s, key) <==> exists|i: int| 0 <= i < s.len() && (#[trigger] s[i]).0 == key,
{
    if exists|i: int| 0 <= i < s.len() && (#[trigger] s[i]).0 == key {
        let i = choose|i: int| 0 <= i < s.len() && (#[trigger] s[i]).0 == key;
        lemma_rank_at(s, i);
    }
}

/// After a value was put in, its key has it, every other key has what it had, and the order holds.
pub proof fn law_put_then_lookup<V>(s: Seq<(u64, V)>, key: u64, value: V, other: u64)
    requires
        sorted(s),
    ensures
        sorted(put(s, key, value)),
        lookup(put(s, key, value), key) == Some(value),
        other != key ==> lookup(put(s, key, value), other) == lookup(s, other),
        put(s, key, value).len() == s.len() + if has_key(s, key) {
            0int
        } else {
            1
        },
{
    lemma_rank(s, key);
    let t = put(s, key, value);
    let r = rank(s, key) as int;
    assert(sorted(t)) by {
        assert forall|i: int, j: int| 0 <= i < j < t.len() implies (#[trigger] t[i]).0 < (
        #[trigger] t[j]).0 by {
            if has_key(s, key) {
                assert(i != r ==> t[i] == s[i]);
                assert(j != r ==> t[j] == s[j]);
                assert(s[i].0 < s[j].0);
            } else {
                let a = if i < r {
                    i
                } else {
                    i - 1
                };
                let b = if j < r {
                    j
                } else {
                    j - 1
                };
                assert(i != r ==> t[i] == s[a]);
                assert(j != r ==> t[j] == s[b]);
            }
        }
    }
    assert(t[r] == (key, value));
    lemma_rank_at(t, r);
    if other != key {
        lemma_rank(s, other);
        lemma_rank(t, other);
        lemma_has_key(s, other);
        lemma_has_key(t, other);
        if has_key(s, other) {
            let i = rank(s, other) as int;
            let k = if has_key(s, key) || i < r {
                i
            } else {
                i + 1
            };
            assert(t[k] == s[i]);
            lemma_rank_at(t, k);
        } else if has_key(t, other) {
            let k = rank(t, other) as int;
            let i = if has_key(s, key) || k < r {
                k
            } else {
                k - 1
            };
            assert(t[k] == s[i]);
            assert(s[i].0 == other);
            assert(false);
        }
    }
}

/// After a key was removed it has no value, every other key has what it had, and the order holds.
pub proof fn law_without_then_lookup<V>(s: Seq<(u64, V)>, key: u64, other: u64)
    requires
        sorted(s),
    ensures
        sorted(without(s, key)),
        lookup(without(s, key), key) is None,
        other != key ==> lookup(without(s, key), other) == lookup(s, other),
{
    lemma_rank(s, key);
    let t = without(s, key);
    let r = rank(s, key) as int;
    if has_key(s, key) {
        assert forall|i: int| 0 <= i < t.len() implies #[trigger] t[i] == s[if i < r {
            i
        } else {
            i + 1
        }] by {}
        assert(sorted(t)) by {
            assert forall|i: int, j: int| 0 <= i < j < t.len() implies (#[trigger] t[i]).0 < (
            #[trigger] t[j]).0 by {
                let a = if i < r {
                    i
                } else {
                    i + 1
                };
                let b = if j < r {
                    j
                } else {
                    j + 1
                };
                assert(s[a].0 < s[b].0);
            }
        }
        lemma_has_key(t, key);
        if has_key(t, key) {
            let i = rank(t, key) as int;
            assert(t[i].0 == key);
            let a = if i < r {
                i
            } else {
                i + 1
            };
            assert(s[a].0 == key);
            lemma_rank_at(s, a);
            assert(false);
        }
        if other != key {
            lemma_has_key(s, other);
            lemma_has_key(t, other);
            if has_key(s, other) {
                let i = rank(s, other) as int;
                let k = if i < r {
                    i
                } else {
                    i - 1
                };
                assert(t[k] == s[i]);
                lemma_rank_at(t, k);
            } else if has_key(t, other) {
                let k = rank(t, other) as int;
                let i = if k < r {
                    k
                } else {
                    k + 1
                };
                assert(t[k] == s[i]);
                assert(s[i].0 == other);
                assert(false);
            }
        }
    }
}

/// Entries in ascending order that are put in one after the other come out as they were.
pub proof fn lemma_put_all_sorted<V>(s: Seq<(u64, V)>, n: nat)
    requires
        sorted(s),
        n <= s.len(),
    ensures
        put_all(s, n) == s.take(n as int),
    decreases n,
{
    if n > 0 {
        let m = (n - 1) as nat;
        lemma_put_all_sorted(s, m);
        let t = s.take(m as int);
        assert(sorted(t)) by {
            assert forall|i: int, j: int| 0 <= i < j < t.len() implies (#[trigger] t[i]).0 < (
            #[trigger] t[j]).0 by {
                assert(s[i].0 < s[j].0);
            }
        }
        if m > 0 {
            assert(s[m - 1].0 < s[m as int].0);
        }
        lemma_rank_is(t, s[m as int].0, m);
        assert(put_all(s, n) =~= s.take(n as int));
    } else {
        assert(s.take(0) =~= Seq::empty());
    }
}

/// After entries were put in, each of their keys has its value, and every other key has what it had.
pub proof fn law_put_upto_then_lookup<V>(
    base: Seq<(u64, V)>,
    s: Seq<(u64, V)>,
    n: nat,
    key: u64,
)
    requires
        sorted(base),
        sorted(s),
        n <= s.len(),
    ensures
        sorted(put_upto(base, s, n)),
        lookup(put_upto(base, s, n), key) == if has_key(s, key) && rank(s, key) < n {
            lookup(s, key)
        } else {
            lookup(base, key)
        },
    decreases n,
{
    if n > 0 {
        let m = n - 1;
        law_put_upto_then_lookup(base, s, m as nat, key);
        law_put_then_lookup(put_upto(base, s, m as nat), s[m].0, s[m].1, key);
        lemma_rank_at(s, m);
        if has_key(s, key) && s[m].0 != key && rank(s, key) == m {
            assert(s[m].0 == key);
        }
    }
}

proof fn lemma_same_lookups_upto<V>(a: Seq<(u64, V)>, b: Seq<(u64, V)>, n: nat)
    requires
        sorted(a),
        sorted(b),
        forall|key: u64| #[trigger] lookup(a, key) == lookup(b, key),
        n <= a.len(),
        n <= b.len(),
    ensures
        forall|i: int| 0 <= i < n ==> #[trigger] a[i] == b[i],
    decreases n,
{
    if n > 0 {
        lemma_same_lookups_upto(a, b, (n - 1) as nat);
        let i = n - 1;
        lemma_rank_at(a, i);
        lemma_rank_at(b, i);
        assert(lookup(a, a[i].0) == lookup(b, a[i].0));
        assert(lookup(a, b[i].0) == lookup(b, b[i].0));
        if a[i].0 < b[i].0 {
            let j = rank(b, a[i].0) as int;
            lemma_rank(b, a[i].0);
            assert(j < i);
            assert(a[j] == b[j]);
            assert(false);
        }
        if b[i].0 < a[i].0 {
            let j = rank(a, b[i].0) as int;
            lemma_rank(a, b[i].0);
            assert(j < i);
            assert(a[j] == b[j]);
            assert(false);
        }
    }
}

/// Maps that give every key the same value are the same.
pub proof fn law_same_lookups<V>(a: Seq<(u64, V)>, b: Seq<(u64, V)>)
    requires
        sorted(a),
        sorted(b),
        forall|key: u64| #[trigger] lookup(a, key) == lookup(b, key),
    ensures
        a == b,
{
    let n = if a.len() < b.len() {
        a.len()
    } else {
        b.len()
    };
    lemma_same_lookups_upto(a, b, n);
    if n < a.len() {
        lemma_rank_at(a, n as int);
        assert(lookup(a, a[n as int].0) == lookup(b, a[n as int].0));
        let j = rank(b, a[n as int].0) as int;
        assert(a[j] == b[j]);
        assert(false);
    }
    if n < b.len() {
        lemma_rank_at(b, n as int);
        assert(lookup(a, b[n as int].0) == lookup(b, b[n as int].0));
        let j = rank(a, b[n as int].0) as int;
        assert(a[j] == b[j]);
        assert(false);
    }
    assert(a =~= b);
}

/// What holds of all values, and of one that is put in, holds of all values after it.
pub proof fn lemma_put_keeps<V>(s: Seq<(u64, V)>, key: u64, value: V, p: spec_fn(V) -> bool)
    requires
        p(value),
        forall|i: int| 0 <= i < s.len() ==> p((#[trigger] s[i]).1),
    ensures
        forall|i: int| 0 <= i < put(s, key, value).len() ==> p((#[trigger] put(s, key, value)[i]).1),
{
    let r = put(s, key, value);
    lemma_rank_bound(s, key);
    let k = rank(s, key) as int;
    assert forall|i: int| 0 <= i < r.len() implies p((#[trigger] r[i]).1) by {
        if i == k {
            assert(r[i] == (key, value));
        } else if has_key(s, key) || i < k {
            assert(r[i] == s[i]);
        } else {
            assert(r[i] == s[i - 1]);
        }
    }
}

/// The entries with another value in place of each.
pub open spec fn mapped<V, W>(s: Seq<(u64, V)>, f: spec_fn(V) -> W) -> Seq<(u64, W)> {
    Seq::new(s.len(), |i: int| (s[i].0, f(s[i].1)))
}

/// Replacing the value of an entry is putting it in.
pub proof fn lemma_update_is_put<V>(s: Seq<(u64, V)>, i: int, v: V)
    requires
        sorted(s),
        0 <= i < s.len(),
    ensures
        s.update(i, (s[i].0, v)) == put(s, s[i].0, v),
        sorted(s.update(i, (s[i].0, v))),
        lookup(s, s[i].0) == Some(s[i].1),
        forall|k: u64| #[trigger]
            lookup(s.update(i, (s[i].0, v)), k) == if k == s[i].0 {
                Some(v)
            } else {
                lookup(s, k)
            },
{
    lemma_rank_at(s, i);
    assert(s.update(i, (s[i].0, v)) =~= put(s, s[i].0, v));
    law_put_then_lookup(s, s[i].0, v, 0);
    assert forall|k: u64| #[trigger]
        lookup(s.update(i, (s[i].0, v)), k) == if k == s[i].0 {
            Some(v)
        } else {
            lookup(s, k)
        } by {
        law_put_then_lookup(s, s[i].0, v, k);
    }
}

pub proof fn lemma_mapped_rank<V, W>(s: Seq<(u64, V)>, f: spec_fn(V) -> W, key: u64)
    ensures
        rank(mapped(s, f), key) == rank(s, key),
        has_key(mapped(s, f), key) == has_key(s, key),
        lookup(mapped(s, f), key) == (match lookup(s, key) {
            Some(v) => Some(f(v)),
            None => None,
        }),
    decreases s.len(),
{
    if s.len() > 0 {
        lemma_mapped_rank(s.drop_last(), f, key);
        assert(mapped(s, f).drop_last() =~= mapped(s.drop_last(), f));
        lemma_rank_bound(s, key);
    }
}

pub proof fn lemma_rank_bound<V>(s: Seq<(u64, V)>, key: u64)
    ensures
        rank(s, key) <= s.len(),
    decreases s.len(),
{
    if s.len() > 0 {
        lemma_rank_bound(s.drop_last(), key);
    }
}

pub proof fn lemma_mapped_sorted<V, W>(s: Seq<(u64, V)>, f: spec_fn(V) -> W)
    ensures
        sorted(mapped(s, f)) == sorted(s),
{
    let t = mapped(s, f);
    if sorted(s) {
        assert forall|i: int, j: int| 0 <= i < j < t.len() implies (#[trigger] t[i]).0 < (
        #[trigger] t[j]).0 by {
            assert(s[i].0 < s[j].0);
        }
    }
    if sorted(t) {
        assert forall|i: int, j: int| 0 <= i < j < s.len() implies (#[trigger] s[i]).0 < (
        #[trigger] s[j]).0 by {
            assert(t[i].0 < t[j].0);
        }
    }
}

pub proof fn lemma_mapped_put<V, W>(s: Seq<(u64, V)>, f: spec_fn(V) -> W, key: u64, value: V)
    ensures
        mapped(put(s, key, value), f) == put(mapped(s, f), key, f(value)),
{
    lemma_mapped_rank(s, f, key);
    lemma_rank_bound(s, key);
    assert(mapped(put(s, key, value), f) =~= put(mapped(s, f), key, f(value)));
}

pub proof fn lemma_mapped_update<V, W>(s: Seq<(u64, V)>, f: spec_fn(V) -> W, i: int, value: V)
    requires
        0 <= i < s.len(),
    ensures
        mapped(s.update(i, (s[i].0, value)), f) == mapped(s, f).update(i, (s[i].0, f(value))),
{
    assert(mapped(s.update(i, (s[i].0, value)), f) =~= mapped(s, f).update(
        i,
        (s[i].0, f(value)),
    ));
}

// ---------------------------------------------------------------------------------------------
// The map

impl<V> View for OrderedMap<V> {
    type V = Seq<(u64, V)>;

    closed spec fn view(&self) -> Seq<(u64, V)> {
        Seq::new(self.keys@.len(), |i: int| (self.keys@[i], self.values@[i]))
    }
}

impl<V> OrderedMap<V> {
    pub closed spec fn wf(&self) -> bool {
        &&& self.keys@.len() == self.values@.len()
        &&& forall|i: int, j: int|
            0 <= i < j < self.keys@.len() ==> self.keys@[i] < self.keys@[j]
    }

    pub proof fn lemma_wf(&self)
        requires
            self.wf(),
        ensures
            sorted(self@),
    {
    }

    proof fn lemma_from_sorted(&self)
        requires
            self.keys@.len() == self.values@.len(),
            sorted(self@),
        ensures
            self.wf(),
    {
        assert forall|i: int, j: int| 0 <= i < j < self.keys@.len() implies self.keys@[i]
            < self.keys@[j] by {
            assert(self@[i].0 < self@[j].0);
        }
    }

    pub fn new() -> (m: Self)
        ensures
            m.wf(),
            m@ == Seq::<(u64, V)>::empty(),
    {
        let m = OrderedMap { keys: Vec::new(), values: Vec::new() };
        assert(m@ =~= Seq::<(u64, V)>::empty());
        m
    }

    pub fn len(&self) -> (n: usize)
        ensures
            n == self@.len(),
    {
        self.keys.len()
    }

    /// The place of a key, or where it would be.
    pub fn position(&self, key: u64) -> (r: usize)
        requires
            self.wf(),
        ensures
            r == rank(self@, key),
            r <= self@.len(),
    {
        let mut low: usize = 0;
        let mut high: usize = self.keys.len();
        while low < high
            invariant
                self.wf(),
                low <= high <= self.keys@.len(),
                low > 0 ==> self@[low - 1].0 < key,
                high < self@.len() ==> self@[high as int].0 >= key,
            decreases high - low,
        {
            let mid: usize = low + (high - low) / 2;
            assert(self@[mid as int].0 == self.keys@[mid as int]);
            if self.keys[mid] < key {
                low = mid + 1;
            } else {
                high = mid;
            }
        }
        proof {
            self.lemma_wf();
            lemma_rank_is(self@, key, low as nat);
        }
        low
    }

    /// The key of an entry.
    pub fn key_at(&self, i: usize) -> (key: u64)
        requires
            i < self@.len(),
        ensures
            key == self@[i as int].0,
    {
        self.keys[i]
    }

    /// The value of an entry.
    pub fn value_at(&self, i: usize) -> (value: &V)
        requires
            self.wf(),
            i < self@.len(),
        ensures
            *value == self@[i as int].1,
    {
        &self.values[i]
    }

    /// The value of an entry, to be changed.
    pub fn value_at_mut(&mut self, i: usize) -> (value: &mut V)
        requires
            old(self).wf(),
            i < old(self)@.len(),
        ensures
            *value == old(self)@[i as int].1,
            final(self).wf(),
            final(self)@ == old(self)@.update(i as int, (old(self)@[i as int].0, *final(value))),
    {
        &mut self.values[i]
    }

    /// The place of a key that is there.
    pub fn find(&self, key: u64) -> (r: Option<usize>)
        requires
            self.wf(),
        ensures
            match r {
                Some(i) => has_key(self@, key) && i == rank(self@, key),
                None => !has_key(self@, key),
            },
    {
        let i: usize = self.position(key);
        if i < self.keys.len() && self.keys[i] == key {
            Some(i)
        } else {
            None
        }
    }

    pub fn get(&self, key: u64) -> (r: Option<&V>)
        requires
            self.wf(),
        ensures
            lookup(self@, key) == (match r {
                Some(v) => Some(*v),
                None => None,
            }),
    {
        match self.find(key) {
            Some(i) => Some(&self.values[i]),
            None => None,
        }
    }

    /// Gives a key a value, in place of an earlier one.
    pub fn insert(&mut self, key: u64, value: V)
        requires
            old(self).wf(),
        ensures
            final(self).wf(),
            final(self)@ == put(old(self)@, key, value),
    {
        proof {
            self.lemma_wf();
            law_put_then_lookup(self@, key, value, 0);
            lemma_rank(self@, key);
        }
        let i: usize = self.position(key);
        if i < self.keys.len() && self.keys[i] == key {
            self.values.set(i, value);
        } else {
            self.keys.insert(i, key);
            self.values.insert(i, value);
        }
        assert(self@ =~= put(old(self)@, key, value));
        proof {
            self.lemma_from_sorted();
        }
    }

    /// Removes a key.
    pub fn remove(&mut self, key: u64)
        requires
            old(self).wf(),
        ensures
            final(self).wf(),
            final(self)@ == without(old(self)@, key),
    {
        proof {
            self.lemma_wf();
            law_without_then_lookup(self@, key, 0);
        }
        match self.find(key) {
            Some(i) => {
                self.keys.remove(i);
                self.values.remove(i);
                assert(self@ =~= without(old(self)@, key));
                proof {
                    self.lemma_from_sorted();
                }
            },
            None => {},
        }
    }
}

impl<V: Copy> OrderedMap<V> {
    /// Puts in all entries of another map.
    pub fn extend(&mut self, other: &OrderedMap<V>)
        requires
            old(self).wf(),
            other.wf(),
        ensures
            final(self).wf(),
            final(self)@ == put_upto(old(self)@, other@, other@.len()),
    {
        let mut i: usize = 0;
        while i < other.len()
            invariant
                self.wf(),
                other.wf(),
                i <= other@.len(),
                self@ == put_upto(old(self)@, other@, i as nat),
            decreases other@.len() - i,
        {
            self.insert(other.key_at(i), *other.value_at(i));
            i = i + 1;
        }
    }
}

} // verus!
