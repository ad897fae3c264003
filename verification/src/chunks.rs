//! Lists cut into pieces of a fixed size, by the `itertools` crate.

use vstd::prelude::*;
use itertools::Itertools;

verus! {

/// The number of pieces of `size` that `n` items take, the last piece
/// perhaps shorter.
pub open spec fn num_chunks(n: nat, size: nat) -> nat
    recommends
        size > 0,
{
    ((n + size - 1) / size as int) as nat
}

/// `items` cut into pieces of `size` items, in order; the last piece holds
/// what is left, at least one item.
pub open spec fn chunked<T>(items: Seq<T>, size: nat) -> Seq<Seq<T>>
    recommends
        size > 0,
{
    Seq::new(
        num_chunks(items.len(), size),
        |k: int|
            items.subrange(
                k * size,
                if (k + 1) * size <= items.len() {
                    (k + 1) * size
                } else {
                    items.len() as int
                },
            ),
    )
}

/// The pieces as sequences.
pub open spec fn chunk_views<T>(chunks: Seq<Vec<T>>) -> Seq<Seq<T>> {
    chunks.map_values(|c: Vec<T>| c@)
}

/// Calls `Itertools::chunks` and collects each piece: the pieces hold
/// `size` items each, in order, but for the last, which holds what is left.
/// The method panics for a size of 0, which is therefore not admitted.
#[verifier::external_body]
pub(crate) fn chunks_of<T>(items: Vec<T>, size: usize) -> (chunks: Vec<Vec<T>>)
    requires
        size > 0,
    ensures
        chunk_views(chunks@) == chunked(items@, size as nat),
{
    items.into_iter().chunks(size).into_iter().map(|chunk| chunk.collect()).collect()
}


/// Every piece holds at least one item and at most `size`, and all but the
/// last hold `size`.
pub proof fn lemma_chunk_len<T>(items: Seq<T>, size: nat, k: int)
    requires
        size > 0,
        0 <= k < chunked(items, size).len(),
    ensures
        1 <= chunked(items, size)[k].len() <= size,
        k < chunked(items, size).len() - 1 ==> chunked(items, size)[k].len() == size,
        k * size + chunked(items, size)[k].len() <= items.len(),
        0 <= k * size < items.len(),
        (k + 1) * size > k * size,
{
    let n = items.len() as int;
    let s = size as int;
    let m = (n + s - 1) / s;
    assert(m * s <= n + s - 1 && n + s - 1 < (m + 1) * s) by (nonlinear_arith)
        requires
            m == (n + s - 1) / s,
            s > 0,
            n >= 0,
    ;
    assert(k * s <= (m - 1) * s) by (nonlinear_arith)
        requires
            k <= m - 1,
            s > 0,
    ;
    assert((m - 1) * s == m * s - s) by (nonlinear_arith);
    assert((k + 1) * s == k * s + s) by (nonlinear_arith);
    if k < m - 1 {
        assert((k + 1) * s <= (m - 1) * s) by (nonlinear_arith)
            requires
                k + 1 <= m - 1,
                s > 0,
        ;
    }
}

} // verus!
