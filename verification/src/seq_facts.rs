//! Facts about flattening a sequence of sequences.
//!
//! The containers in this crate are chains of nodes, each node holding a run
//! of elements. Their views are the flattened element sequences, so the
//! proofs below relate positions inside a node to positions in the flattened
//! sequence.

use vstd::prelude::*;
use vstd::seq_lib::lemma_flatten_concat;

verus! {

/// Number of elements held by the first `k` inner sequences of `nss`.
pub open spec fn prefix_len<T>(nss: Seq<Seq<T>>, k: int) -> int {
    nss.take(k).flatten().len() as int
}

/// Flattening splits at any inner-sequence boundary.
pub proof fn lemma_flatten_split<T>(nss: Seq<Seq<T>>, k: int)
    requires
        0 <= k <= nss.len(),
    ensures
        nss.flatten() == nss.take(k).flatten() + nss.skip(k).flatten(),
{
    assert(nss =~= nss.take(k) + nss.skip(k));
    lemma_flatten_concat(nss.take(k), nss.skip(k));
}

/// A nonempty sequence of sequences flattens to its first inner sequence
/// followed by the flattening of the rest.
pub proof fn lemma_flatten_first<T>(nss: Seq<Seq<T>>)
    requires
        nss.len() > 0,
    ensures
        nss.flatten() == nss[0] + nss.skip(1).flatten(),
{
    assert(nss.drop_first() =~= nss.skip(1));
}

/// Flattening decomposes around the inner sequence at index `k`.
pub proof fn lemma_flatten_decompose<T>(nss: Seq<Seq<T>>, k: int)
    requires
        0 <= k < nss.len(),
    ensures
        nss.flatten() == nss.take(k).flatten() + nss[k] + nss.skip(k + 1).flatten(),
{
    lemma_flatten_split(nss, k);
    lemma_flatten_first(nss.skip(k));
    assert(nss.skip(k).skip(1) =~= nss.skip(k + 1));
    assert(nss.flatten() =~= nss.take(k).flatten() + nss[k] + nss.skip(k + 1).flatten());
}

/// Extending the prefix by one inner sequence adds that sequence's length.
pub proof fn lemma_prefix_len_step<T>(nss: Seq<Seq<T>>, k: int)
    requires
        0 <= k < nss.len(),
    ensures
        prefix_len(nss, k + 1) == prefix_len(nss, k) + nss[k].len(),
{
    assert(nss.take(k + 1) =~= nss.take(k).push(nss[k]));
    nss.take(k).lemma_flatten_push(nss[k]);
}

/// The prefix length over all inner sequences is the flattened length.
pub proof fn lemma_prefix_len_total<T>(nss: Seq<Seq<T>>)
    ensures
        prefix_len(nss, nss.len() as int) == nss.flatten().len(),
{
    assert(nss.take(nss.len() as int) =~= nss);
}

/// Prefix lengths stay within the flattened length.
pub proof fn lemma_prefix_len_bounds<T>(nss: Seq<Seq<T>>, k: int)
    requires
        0 <= k <= nss.len(),
    ensures
        0 <= prefix_len(nss, k) <= nss.flatten().len(),
{
    lemma_flatten_split(nss, k);
}

/// Replacing the inner sequence at `k` replaces exactly its run of elements.
pub proof fn lemma_flatten_update<T>(nss: Seq<Seq<T>>, k: int, s: Seq<T>)
    requires
        0 <= k < nss.len(),
    ensures
        nss.update(k, s).flatten() == nss.take(k).flatten() + s + nss.skip(k + 1).flatten(),
{
    let m = nss.update(k, s);
    lemma_flatten_decompose(m, k);
    assert(m.take(k) =~= nss.take(k));
    assert(m.skip(k + 1) =~= nss.skip(k + 1));
}

/// Inserting an inner sequence at `k` inserts exactly its run of elements.
pub proof fn lemma_flatten_insert<T>(nss: Seq<Seq<T>>, k: int, s: Seq<T>)
    requires
        0 <= k <= nss.len(),
    ensures
        nss.insert(k, s).flatten() == nss.take(k).flatten() + s + nss.skip(k).flatten(),
{
    let m = nss.insert(k, s);
    lemma_flatten_decompose(m, k);
    assert(m.take(k) =~= nss.take(k));
    assert(m.skip(k + 1) =~= nss.skip(k));
}

/// Removing the inner sequence at `k` removes exactly its run of elements.
pub proof fn lemma_flatten_remove<T>(nss: Seq<Seq<T>>, k: int)
    requires
        0 <= k < nss.len(),
    ensures
        nss.remove(k).flatten() == nss.take(k).flatten() + nss.skip(k + 1).flatten(),
{
    let m = nss.remove(k);
    lemma_flatten_split(m, k);
    assert(m.take(k) =~= nss.take(k));
    assert(m.skip(k) =~= nss.skip(k + 1));
}

/// Element `j` of inner sequence `k` sits at flattened position
/// `prefix_len(nss, k) + j`.
pub proof fn lemma_flatten_index<T>(nss: Seq<Seq<T>>, k: int, j: int)
    requires
        0 <= k < nss.len(),
        0 <= j < nss[k].len(),
    ensures
        0 <= prefix_len(nss, k) + j < nss.flatten().len(),
        nss.flatten()[prefix_len(nss, k) + j] == nss[k][j],
{
    lemma_flatten_decompose(nss, k);
    lemma_prefix_len_step(nss, k);
    lemma_prefix_len_bounds(nss, k + 1);
}

} // verus!
