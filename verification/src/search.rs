//! Statements about the first index with a property, and counts.

use vstd::prelude::*;

verus! {

/// The first of the indices below `n` that has the property.
pub open spec fn first_where(n: nat, p: spec_fn(int) -> bool) -> Option<int>
    decreases n,
{
    if n == 0 {
        None
    } else {
        match first_where((n - 1) as nat, p) {
            Some(i) => Some(i),
            None => if p(n - 1) {
                Some(n - 1)
            } else {
                None
            },
        }
    }
}

pub proof fn lemma_first_where(n: nat, p: spec_fn(int) -> bool)
    ensures
        match first_where(n, p) {
            Some(i) => 0 <= i < n && p(i) && forall|j: int| 0 <= j < i ==> !#[trigger] p(j),
            None => forall|j: int| 0 <= j < n ==> !#[trigger] p(j),
        },
    decreases n,
{
    if n > 0 {
        lemma_first_where((n - 1) as nat, p);
    }
}

/// An index that has the property, and before which none has it, is the first.
pub proof fn lemma_first_where_is(n: nat, p: spec_fn(int) -> bool, i: int)
    requires
        0 <= i < n,
        p(i),
        forall|j: int| 0 <= j < i ==> !#[trigger] p(j),
    ensures
        first_where(n, p) == Some(i),
{
    lemma_first_where(n, p);
}

pub proof fn lemma_first_where_none(n: nat, p: spec_fn(int) -> bool)
    requires
        forall|j: int| 0 <= j < n ==> !#[trigger] p(j),
    ensures
        first_where(n, p) is None,
{
    lemma_first_where(n, p);
}

/// Where the properties are alike, the first index is the same.
pub proof fn lemma_first_where_same(n: nat, p: spec_fn(int) -> bool, q: spec_fn(int) -> bool)
    requires
        forall|j: int| 0 <= j < n ==> #[trigger] p(j) == q(j),
    ensures
        first_where(n, p) == first_where(n, q),
    decreases n,
{
    if n > 0 {
        lemma_first_where_same((n - 1) as nat, p, q);
        assert(p(n - 1) == q(n - 1));
    }
}

/// How many entries are false.
pub open spec fn count_false(s: Seq<bool>) -> nat
    decreases s.len(),
{
    if s.len() == 0 {
        0
    } else {
        count_false(s.drop_last()) + if s.last() {
            0nat
        } else {
            1
        }
    }
}

pub proof fn lemma_count_false_bound(s: Seq<bool>)
    ensures
        count_false(s) <= s.len(),
    decreases s.len(),
{
    if s.len() > 0 {
        lemma_count_false_bound(s.drop_last());
    }
}

/// Setting an entry takes it out of the count.
pub proof fn lemma_count_false_set(s: Seq<bool>, i: int)
    requires
        0 <= i < s.len(),
    ensures
        count_false(s.update(i, true)) == count_false(s) - if s[i] {
            0int
        } else {
            1
        },
    decreases s.len(),
{
    if i == s.len() - 1 {
        assert(s.update(i, true).drop_last() =~= s.drop_last());
    } else {
        assert(s.update(i, true).drop_last() =~= s.drop_last().update(i, true));
        lemma_count_false_set(s.drop_last(), i);
    }
}

/// Counts the entries that are false.
pub fn count_live(deleted: &Vec<bool>) -> (n: u64)
    ensures
        n == count_false(deleted@),
{
    let mut n: u64 = 0;
    let mut i: usize = 0;
    assert(deleted@.take(0) =~= Seq::empty());
    while i < deleted.len()
        invariant
            i <= deleted@.len(),
            n == count_false(deleted@.take(i as int)),
            n <= i,
        decreases deleted@.len() - i,
    {
        assert(deleted@.take(i + 1).drop_last() =~= deleted@.take(i as int));
        if !deleted[i] {
            n = n + 1;
        }
        i = i + 1;
    }
    assert(deleted@.take(i as int) =~= deleted@);
    n
}

/// The numbers ascend, so that none occurs twice.
pub open spec fn ascending(s: Seq<u64>) -> bool {
    forall|i: int, j: int| 0 <= i < j < s.len() ==> s[i] < s[j]
}

/// How many of the numbers are smaller than `x`, counted up to the first that is not.
pub open spec fn lower_bound(s: Seq<u64>, x: u64) -> nat
    decreases s.len(),
{
    if s.len() == 0 {
        0
    } else if s.last() < x {
        s.len()
    } else {
        lower_bound(s.drop_last(), x)
    }
}

pub proof fn lemma_lower_bound(s: Seq<u64>, x: u64)
    requires
        ascending(s),
    ensures
        lower_bound(s, x) <= s.len(),
        forall|i: int| 0 <= i < lower_bound(s, x) ==> s[i] < x,
        forall|i: int| lower_bound(s, x) <= i < s.len() ==> s[i] >= x,
    decreases s.len(),
{
    if s.len() > 0 && s.last() >= x {
        let init = s.drop_last();
        lemma_lower_bound(init, x);
        assert forall|i: int| 0 <= i < lower_bound(s, x) implies s[i] < x by {
            assert(init[i] == s[i]);
        }
        assert forall|i: int| lower_bound(s, x) <= i < s.len() implies s[i] >= x by {
            if i < init.len() {
                assert(init[i] == s[i]);
            }
        }
    }
}

/// Ascending numbers below a bound are at most as many as the bound.
pub proof fn lemma_ascending_len(s: Seq<u64>, bound: nat)
    requires
        ascending(s),
        forall|i: int| 0 <= i < s.len() ==> s[i] < bound,
    ensures
        s.len() <= bound,
{
    if s.len() > 0 {
        lemma_ascending_at(s, s.len() - 1);
    }
}

proof fn lemma_ascending_at(s: Seq<u64>, i: int)
    requires
        ascending(s),
        0 <= i < s.len(),
    ensures
        s[i] >= i,
    decreases i,
{
    if i > 0 {
        lemma_ascending_at(s, i - 1);
        assert(s[i - 1] < s[i]);
    }
}

/// A number is among ascending ones exactly if it stands at its lower bound.
pub proof fn lemma_contains_at(s: Seq<u64>, x: u64)
    requires
        ascending(s),
    ensures
        s.contains(x) <==> lower_bound(s, x) < s.len() && s[lower_bound(s, x) as int] == x,
{
    lemma_lower_bound(s, x);
    if s.contains(x) {
        let i = choose|i: int| 0 <= i < s.len() && s[i] == x;
        assert(i >= lower_bound(s, x));
        if i > lower_bound(s, x) {
            assert(s[lower_bound(s, x) as int] < s[i]);
        }
    }
}

/// The first place where a number is not smaller than `x`.
pub fn lower_bound_of(v: &Vec<u64>, x: u64) -> (r: usize)
    requires
        ascending(v@),
    ensures
        r == lower_bound(v@, x),
        r <= v@.len(),
{
    let mut low: usize = 0;
    let mut high: usize = v.len();
    while low < high
        invariant
            ascending(v@),
            low <= high <= v@.len(),
            low > 0 ==> v@[low - 1] < x,
            high < v@.len() ==> v@[high as int] >= x,
        decreases high - low,
    {
        let mid: usize = low + (high - low) / 2;
        if v[mid] < x {
            low = mid + 1;
        } else {
            high = mid;
        }
    }
    proof {
        lemma_lower_bound(v@, x);
    }
    low
}

} // verus!
