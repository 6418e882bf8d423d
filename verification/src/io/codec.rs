//! What encoders and decoders of nested structures have in common.
//!
//! A decoder gives `None` on bytes that do not hold the structure at all (a length that points
//! outside of the buffer), an error where the format has one for it, and else the value.

use vstd::prelude::*;

use crate::error::ErrorView;
use crate::io::binary;

verus! {

/// What decoding gives.
pub type Decoded<T> = Option<Result<T, ErrorView>>;

/// The blobs one after the other.
pub open spec fn concat(blobs: Seq<Seq<u8>>) -> Seq<u8>
    decreases blobs.len(),
{
    if blobs.len() == 0 {
        Seq::empty()
    } else {
        concat(blobs.drop_last()) + blobs.last()
    }
}

/// Where the `i`th blob starts in the concatenation.
pub open spec fn blob_start(blobs: Seq<Seq<u8>>, i: int) -> nat {
    concat(blobs.take(i)).len()
}

pub proof fn lemma_concat_push(blobs: Seq<Seq<u8>>, b: Seq<u8>)
    ensures
        concat(blobs.push(b)) == concat(blobs) + b,
{
    assert(blobs.push(b).drop_last() =~= blobs);
}

pub proof fn lemma_concat_take(blobs: Seq<Seq<u8>>, i: int)
    requires
        0 <= i < blobs.len(),
    ensures
        concat(blobs.take(i + 1)) == concat(blobs.take(i)) + blobs[i],
        blob_start(blobs, i + 1) == blob_start(blobs, i) + blobs[i].len(),
{
    assert(blobs.take(i + 1) =~= blobs.take(i).push(blobs[i]));
    lemma_concat_push(blobs.take(i), blobs[i]);
}

/// Later blobs start later.
pub proof fn lemma_blob_start_mono(blobs: Seq<Seq<u8>>, i: int, j: int)
    requires
        0 <= i <= j <= blobs.len(),
    ensures
        blob_start(blobs, i) <= blob_start(blobs, j) <= concat(blobs).len(),
    decreases blobs.len() - i,
{
    if j < blobs.len() {
        lemma_concat_take(blobs, j);
        lemma_blob_start_mono(blobs, j + 1, blobs.len() as int);
        if i < j {
            lemma_concat_take(blobs, i);
            lemma_blob_start_mono(blobs, i + 1, j);
        }
    } else {
        assert(blobs.take(blobs.len() as int) =~= blobs);
        if i < j {
            lemma_concat_take(blobs, i);
            lemma_blob_start_mono(blobs, i + 1, j);
        }
    }
}

/// A buffer that holds the concatenation holds each blob at its place.
pub proof fn lemma_concat_holds(buf: Seq<u8>, pos: int, blobs: Seq<Seq<u8>>, i: int)
    requires
        binary::holds_at(buf, pos, concat(blobs)),
        0 <= i < blobs.len(),
    ensures
        binary::holds_at(buf, pos + blob_start(blobs, i), blobs[i]),
    decreases blobs.len() - i,
{
    if i == blobs.len() - 1 {
        assert(blobs.take(i) =~= blobs.drop_last());
        binary::lemma_holds_append(buf, pos, concat(blobs.drop_last()), blobs.last());
    } else {
        binary::lemma_holds_append(buf, pos, concat(blobs.drop_last()), blobs.last());
        lemma_concat_holds(buf, pos, blobs.drop_last(), i);
        assert(blobs.drop_last().take(i) =~= blobs.take(i));
    }
}

pub proof fn lemma_concat_self(blobs: Seq<Seq<u8>>)
    ensures
        binary::holds_at(concat(blobs), 0, concat(blobs)),
{
    binary::lemma_holds_self(concat(blobs), Seq::empty());
}

/// Blobs of one size: the `i`th starts at `i` times that size.
pub proof fn lemma_concat_uniform(blobs: Seq<Seq<u8>>, size: nat)
    requires
        forall|i: int| 0 <= i < blobs.len() ==> (#[trigger] blobs[i]).len() == size,
    ensures
        concat(blobs).len() == blobs.len() * size,
    decreases blobs.len(),
{
    if blobs.len() > 0 {
        let init = blobs.drop_last();
        assert forall|i: int| 0 <= i < init.len() implies (#[trigger] init[i]).len() == size by {
            assert(init[i] == blobs[i]);
        }
        lemma_concat_uniform(init, size);
        assert(blobs.len() * size == (blobs.len() - 1) * size + size) by (nonlinear_arith)
            requires
                blobs.len() >= 1,
        ;
    } else {
        assert(0 * size == 0) by (nonlinear_arith);
    }
}

/// The first `n` results of `f`, up to the first that is not a value.
pub open spec fn collect<T>(n: nat, f: spec_fn(int) -> Decoded<T>) -> Decoded<Seq<T>>
    decreases n,
{
    if n == 0 {
        Some(Ok(Seq::empty()))
    } else {
        match collect((n - 1) as nat, f) {
            Some(Ok(s)) => match f(n - 1) {
                Some(Ok(t)) => Some(Ok(s.push(t))),
                Some(Err(e)) => Some(Err(e)),
                None => None,
            },
            r => r,
        }
    }
}

/// Where collecting has stopped, it stays.
pub proof fn lemma_collect_stuck<T>(i: nat, n: nat, f: spec_fn(int) -> Decoded<T>)
    requires
        i <= n,
        !(collect(i, f) matches Some(Ok(_))),
    ensures
        collect(n, f) == collect(i, f),
    decreases n - i,
{
    if i < n {
        lemma_collect_stuck(i, (n - 1) as nat, f);
    }
}

pub proof fn lemma_collect_all<T>(s: Seq<T>, f: spec_fn(int) -> Decoded<T>)
    requires
        forall|i: int| 0 <= i < s.len() ==> #[trigger] f(i) == Some(Ok::<T, ErrorView>(s[i])),
    ensures
        collect(s.len(), f) == Some(Ok::<Seq<T>, ErrorView>(s)),
    decreases s.len(),
{
    if s.len() > 0 {
        let init = s.drop_last();
        assert forall|i: int| 0 <= i < init.len() implies #[trigger] f(i) == Some(
            Ok::<T, ErrorView>(init[i]),
        ) by {}
        lemma_collect_all(init, f);
        let n = s.len();
        assert(f(n - 1) == Some(Ok::<T, ErrorView>(s[n - 1])));
        assert(init.push(s.last()) =~= s);
    } else {
        assert(s =~= Seq::empty());
    }
}

/// What reading at a position gives: the value and the position behind it.
pub type Reading<T> = Option<(T, int)>;

/// `n` values one after the other, the first at `pos`.
pub open spec fn many<T>(n: nat, f: spec_fn(int) -> Reading<T>, pos: int) -> Reading<Seq<T>>
    decreases n,
{
    if n == 0 {
        Some((Seq::empty(), pos))
    } else {
        match many((n - 1) as nat, f, pos) {
            Some((s, p)) => match f(p) {
                Some((t, q)) => Some((s.push(t), q)),
                None => None,
            },
            None => None,
        }
    }
}

/// Where a value is missing, so are those behind it.
pub proof fn lemma_many_stuck<T>(i: nat, n: nat, f: spec_fn(int) -> Reading<T>, pos: int)
    requires
        i <= n,
        many(i, f, pos) is None,
    ensures
        many(n, f, pos) is None,
    decreases n - i,
{
    if i < n {
        lemma_many_stuck(i, (n - 1) as nat, f, pos);
    }
}

/// Values whose encodings stand one after the other are all read.
pub proof fn lemma_many_all<T>(s: Seq<T>, blobs: Seq<Seq<u8>>, f: spec_fn(int) -> Reading<T>, pos: int)
    requires
        s.len() == blobs.len(),
        forall|i: int|
            0 <= i < s.len() ==> #[trigger] f(pos + blob_start(blobs, i)) == Some(
                (s[i], pos + blob_start(blobs, i) + blobs[i].len()),
            ),
    ensures
        many(s.len(), f, pos) == Some((s, pos + concat(blobs).len())),
    decreases s.len(),
{
    if s.len() > 0 {
        let init = s.drop_last();
        let front = blobs.drop_last();
        let n = s.len();
        assert forall|i: int| 0 <= i < init.len() implies #[trigger] f(pos + blob_start(front, i))
            == Some((init[i], pos + blob_start(front, i) + front[i].len())) by {
            assert(front.take(i) =~= blobs.take(i));
            assert(f(pos + blob_start(blobs, i)) == Some(
                (s[i], pos + blob_start(blobs, i) + blobs[i].len()),
            ));
        }
        lemma_many_all(init, front, f, pos);
        assert(blobs.take(n - 1) =~= front);
        assert(f(pos + blob_start(blobs, n - 1)) == Some(
            (s[n - 1], pos + blob_start(blobs, n - 1) + blobs[n - 1].len()),
        ));
        assert(init.push(s.last()) =~= s);
    } else {
        assert(s =~= Seq::empty());
    }
}

/// The value read from a whole buffer.
pub open spec fn first_read<T>(r: Reading<T>) -> Option<T> {
    match r {
        Some((t, _)) => Some(t),
        None => None,
    }
}

} // verus!
