//! Lists that are put together: of the cells that hold something, and of lists one after the other.

use vstd::prelude::*;

use crate::search::count_false;

verus! {

/// What the first `n` cells hold, in order.
pub open spec fn filled<R>(cells: spec_fn(int) -> Option<R>, n: nat) -> Seq<R>
    decreases n,
{
    if n == 0 {
        Seq::empty()
    } else {
        let before = filled(cells, (n - 1) as nat);
        match cells(n - 1) {
            Some(r) => before.push(r),
            None => before,
        }
    }
}

/// The first `n` lists, one after the other.
pub open spec fn chained<R>(parts: spec_fn(int) -> Seq<R>, n: nat) -> Seq<R>
    decreases n,
{
    if n == 0 {
        Seq::empty()
    } else {
        chained(parts, (n - 1) as nat) + parts(n - 1)
    }
}

pub proof fn lemma_filled_same<R>(
    a: spec_fn(int) -> Option<R>,
    b: spec_fn(int) -> Option<R>,
    n: nat,
)
    requires
        forall|i: int| 0 <= i < n ==> #[trigger] a(i) == b(i),
    ensures
        filled(a, n) == filled(b, n),
    decreases n,
{
    if n > 0 {
        lemma_filled_same(a, b, (n - 1) as nat);
        assert(a(n - 1) == b(n - 1));
    }
}

/// A cell that was emptied takes its entry out of the list.
pub proof fn lemma_filled_without<R>(
    a: spec_fn(int) -> Option<R>,
    b: spec_fn(int) -> Option<R>,
    at: int,
    n: nat,
)
    requires
        0 <= at < n,
        a(at) is Some,
        b(at) is None,
        forall|i: int| 0 <= i < n && i != at ==> #[trigger] a(i) == b(i),
    ensures
        filled(a, at as nat).len() < filled(a, n).len(),
        filled(a, n)[filled(a, at as nat).len() as int] == a(at)->Some_0,
        filled(a, n).take(filled(a, at as nat).len() as int) == filled(a, at as nat),
        filled(b, n) == filled(a, n).remove(filled(a, at as nat).len() as int),
    decreases n,
{
    let p = filled(a, at as nat).len() as int;
    let m = (n - 1) as nat;
    let before = filled(a, m);
    if m == at {
        lemma_filled_same(a, b, m);
        assert(before.push(a(at)->Some_0).remove(p) =~= before);
        assert(before.push(a(at)->Some_0).take(p) =~= before);
    } else {
        lemma_filled_without(a, b, at, m);
        assert(a(n - 1) == b(n - 1));
        match a(n - 1) {
            Some(r) => {
                assert(before.push(r).remove(p) =~= before.remove(p).push(r));
                assert(before.push(r).take(p) =~= before.take(p));
            },
            None => {},
        }
    }
}

/// Nothing in the list has the property if no cell holds something that has it.
pub proof fn lemma_filled_none<R>(
    cells: spec_fn(int) -> Option<R>,
    n: nat,
    f: spec_fn(R) -> bool,
)
    requires
        forall|i: int| 0 <= i < n ==> (#[trigger] cells(i) matches Some(r) ==> !f(r)),
    ensures
        forall|x: int| 0 <= x < filled(cells, n).len() ==> !f(#[trigger] filled(cells, n)[x]),
    decreases n,
{
    if n > 0 {
        lemma_filled_none(cells, (n - 1) as nat, f);
        assert(cells(n - 1) matches Some(r) ==> !f(r));
        let before = filled(cells, (n - 1) as nat);
        assert forall|x: int| 0 <= x < filled(cells, n).len() implies !f(
            #[trigger] filled(cells, n)[x],
        ) by {
            if x < before.len() {
                assert(filled(cells, n)[x] == before[x]);
            }
        }
    }
}

/// Where a cell is marked exactly if it is empty, there are as many entries as unmarked cells.
pub proof fn lemma_filled_count<R>(cells: spec_fn(int) -> Option<R>, n: nat, empty: Seq<bool>)
    requires
        empty.len() == n,
        forall|i: int| 0 <= i < n ==> (#[trigger] cells(i) is None <==> empty[i]),
    ensures
        filled(cells, n).len() == count_false(empty),
    decreases n,
{
    if n > 0 {
        assert forall|i: int| 0 <= i < n - 1 implies (#[trigger] cells(i) is None
            <==> empty.drop_last()[i]) by {
            assert(cells(i) is None <==> empty[i]);
        }
        lemma_filled_count(cells, (n - 1) as nat, empty.drop_last());
        assert(cells(n - 1) is None <==> empty[n - 1]);
    }
}

pub proof fn lemma_chained_same<R>(a: spec_fn(int) -> Seq<R>, b: spec_fn(int) -> Seq<R>, n: nat)
    requires
        forall|i: int| 0 <= i < n ==> #[trigger] a(i) == b(i),
    ensures
        chained(a, n) == chained(b, n),
    decreases n,
{
    if n > 0 {
        lemma_chained_same(a, b, (n - 1) as nat);
        assert(a(n - 1) == b(n - 1));
    }
}

/// Fewer lists are not longer.
pub proof fn lemma_chained_grows<R>(parts: spec_fn(int) -> Seq<R>, i: nat, n: nat)
    requires
        i <= n,
    ensures
        chained(parts, i).len() <= chained(parts, n).len(),
    decreases n,
{
    if i < n {
        lemma_chained_grows(parts, i, (n - 1) as nat);
    }
}

/// Where one of the lists stands.
pub proof fn lemma_chained_part<R>(parts: spec_fn(int) -> Seq<R>, at: int, p: int, n: nat)
    requires
        0 <= at < n,
        0 <= p < parts(at).len(),
    ensures
        chained(parts, at as nat).len() + p < chained(parts, n).len(),
        chained(parts, n)[chained(parts, at as nat).len() + p] == parts(at)[p],
        chained(parts, n).take(chained(parts, at as nat).len() + p) == chained(parts, at as nat)
            + parts(at).take(p),
    decreases n,
{
    let q = chained(parts, at as nat).len() + p;
    let m = (n - 1) as nat;
    if m == at {
        assert(chained(parts, n).take(q) =~= chained(parts, m) + parts(at).take(p));
    } else {
        lemma_chained_part(parts, at, p, m);
        assert(chained(parts, n).take(q) =~= chained(parts, m).take(q));
    }
}

/// A list that lost an entry takes it out of the whole.
pub proof fn lemma_chained_without<R>(
    a: spec_fn(int) -> Seq<R>,
    b: spec_fn(int) -> Seq<R>,
    at: int,
    p: int,
    n: nat,
)
    requires
        0 <= at < n,
        0 <= p < a(at).len(),
        b(at) == a(at).remove(p),
        forall|i: int| 0 <= i < n && i != at ==> #[trigger] a(i) == b(i),
    ensures
        chained(b, n) == chained(a, n).remove(chained(a, at as nat).len() + p),
    decreases n,
{
    let q = chained(a, at as nat).len() + p;
    let m = (n - 1) as nat;
    if m == at {
        lemma_chained_same(a, b, m);
        assert((chained(a, m) + a(at)).remove(q) =~= chained(a, m) + a(at).remove(p));
    } else {
        lemma_chained_part(a, at, p, m);
        lemma_chained_without(a, b, at, p, m);
        assert(a(m as int) == b(m as int));
        assert((chained(a, m) + a(m as int)).remove(q) =~= chained(a, m).remove(q) + a(m as int));
    }
}

/// A list that got one more entry at its end puts it into the whole.
pub proof fn lemma_chained_with<R>(
    a: spec_fn(int) -> Seq<R>,
    b: spec_fn(int) -> Seq<R>,
    at: int,
    r: R,
    n: nat,
)
    requires
        0 <= at < n,
        b(at) == a(at).push(r),
        forall|i: int| 0 <= i < n && i != at ==> #[trigger] a(i) == b(i),
    ensures
        chained(a, (at + 1) as nat).len() <= chained(a, n).len(),
        chained(b, n) == chained(a, n).insert(chained(a, (at + 1) as nat).len() as int, r),
    decreases n,
{
    let q = chained(a, (at + 1) as nat).len() as int;
    let m = (n - 1) as nat;
    if m == at {
        lemma_chained_same(a, b, m);
        assert(chained(a, m) + a(at).push(r) =~= (chained(a, m) + a(at)).insert(q, r));
    } else {
        lemma_chained_with(a, b, at, r, m);
        assert(a(m as int) == b(m as int));
        assert(chained(a, m).insert(q, r) + a(m as int) =~= (chained(a, m) + a(m as int)).insert(
            q,
            r,
        ));
    }
}

/// A list that was put in between stands at its place in the whole.
pub proof fn lemma_chained_between<R>(
    a: spec_fn(int) -> Seq<R>,
    b: spec_fn(int) -> Seq<R>,
    at: int,
    n: nat,
)
    requires
        0 <= at <= n,
        forall|i: int| 0 <= i < at ==> #[trigger] a(i) == b(i),
        forall|i: int| at < i <= n ==> #[trigger] b(i) == a(i - 1),
    ensures
        ({
            let q = chained(a, at as nat).len() as int;
            &&& q <= chained(a, n).len()
            &&& chained(b, n + 1) == chained(a, n).take(q) + b(at) + chained(a, n).skip(q)
        }),
    decreases n,
{
    let q = chained(a, at as nat).len() as int;
    if n == at {
        lemma_chained_same(a, b, n);
        assert(chained(b, n + 1) =~= chained(a, n).take(q) + b(at) + chained(a, n).skip(q));
    } else {
        let m = (n - 1) as nat;
        lemma_chained_between(a, b, at, m);
        assert(b(n as int) == a(n - 1));
        assert(chained(b, n + 1) == chained(b, n) + b(n as int));
        assert(chained(b, n + 1) =~= chained(a, n).take(q) + b(at) + chained(a, n).skip(q));
    }
}

/// Nothing in the whole has the property if nothing in the lists has it.
pub proof fn lemma_chained_none<R>(parts: spec_fn(int) -> Seq<R>, n: nat, f: spec_fn(R) -> bool)
    requires
        forall|i: int, x: int|
            0 <= i < n && 0 <= x < parts(i).len() ==> !f(#[trigger] parts(i)[x]),
    ensures
        forall|x: int| 0 <= x < chained(parts, n).len() ==> !f(#[trigger] chained(parts, n)[x]),
    decreases n,
{
    if n > 0 {
        let m = (n - 1) as nat;
        lemma_chained_none(parts, m, f);
        let before = chained(parts, m);
        assert forall|x: int| 0 <= x < chained(parts, n).len() implies !f(
            #[trigger] chained(parts, n)[x],
        ) by {
            if x < before.len() {
                assert(chained(parts, n)[x] == before[x]);
            } else {
                assert(chained(parts, n)[x] == parts(m as int)[x - before.len()]);
            }
        }
    }
}

} // verus!
