//! The mathematical model: what a list of source slices denotes, what an
//! ordered offset sequence names inside a buffer, and the laws that the
//! splitter and the concatenation variants are specified against.

use vstd::prelude::*;

verus! {

/// The element sequences that a list of source slices denotes, in order.
pub open spec fn views_of<T>(ss: Seq<&[T]>) -> Seq<Seq<T>> {
    ss.map_values(|s: &[T]| s@)
}

/// The element sequences held by a list of owned buffers, in order.
pub open spec fn vec_views_of<T>(vs: Seq<Vec<T>>) -> Seq<Seq<T>> {
    vs.map_values(|v: Vec<T>| v@)
}

/// Offsets are ordered: no later offset is smaller than an earlier one.
pub open spec fn offsets_ordered(idxs: Seq<usize>) -> bool {
    forall|i: int, j: int|
        0 <= i <= j < idxs.len() ==> #[trigger] idxs[i] <= #[trigger] idxs[j]
}

/// A non-empty ordered offset sequence partitions a buffer of exactly the
/// length it spans.
pub open spec fn offsets_span<T>(idxs: Seq<usize>, data: Seq<T>) -> bool {
    &&& idxs.len() >= 1
    &&& offsets_ordered(idxs)
    &&& data.len() == idxs.last() - idxs.first()
}

/// The regions of a buffer named by each adjacent pair of offsets: region `k`
/// holds the elements from offset `k` (inclusive) to offset `k + 1`
/// (exclusive), both taken relative to the first offset.
pub open spec fn regions_of<T>(idxs: Seq<usize>, data: Seq<T>) -> Seq<Seq<T>>
    recommends
        offsets_span(idxs, data),
{
    Seq::new(
        (idxs.len() - 1) as nat,
        |k: int| data.subrange(idxs[k] - idxs[0], idxs[k + 1] - idxs[0]),
    )
}

/// Appending one more sequence extends the flattened length by its length.
pub proof fn lemma_flatten_take_succ<T>(ss: Seq<Seq<T>>, i: int)
    requires
        0 <= i < ss.len(),
    ensures
        ss.take(i + 1).flatten().len() == ss.take(i).flatten().len() + ss[i].len(),
{
    assert(ss.take(i + 1) =~= ss.take(i).push(ss[i]));
    ss.take(i).lemma_flatten_push(ss[i]);
}

/// The flattened length of a prefix never exceeds that of a longer prefix.
pub proof fn lemma_flatten_take_mono<T>(ss: Seq<Seq<T>>, i: int, j: int)
    requires
        0 <= i <= j <= ss.len(),
    ensures
        ss.take(i).flatten().len() <= ss.take(j).flatten().len(),
    decreases j - i,
{
    if i < j {
        lemma_flatten_take_succ(ss, i);
        lemma_flatten_take_mono(ss, i + 1, j);
    }
}

/// The whole sequence is its own prefix of full length.
pub proof fn lemma_flatten_take_all<T>(ss: Seq<Seq<T>>)
    ensures
        ss.take(ss.len() as int).flatten() == ss.flatten(),
{
    assert(ss.take(ss.len() as int) =~= ss);
}

/// A sequence of sequences that are all empty flattens to the empty sequence.
pub proof fn lemma_flatten_all_empty<T>(ss: Seq<Seq<T>>)
    requires
        forall|k: int| 0 <= k < ss.len() ==> #[trigger] ss[k].len() == 0,
    ensures
        ss.flatten() == Seq::<T>::empty(),
    decreases ss.len(),
{
    if ss.len() > 0 {
        lemma_flatten_all_empty(ss.drop_first());
        assert(ss.flatten() =~= Seq::<T>::empty());
    }
}

/// The regions named by an ordered offset sequence cover the buffer exactly
/// once: concatenating them, in order, reproduces the buffer with no gap and
/// no overlap.
pub proof fn lemma_regions_reassemble<T>(idxs: Seq<usize>, data: Seq<T>)
    requires
        offsets_span(idxs, data),
    ensures
        regions_of(idxs, data).flatten() == data,
    decreases idxs.len(),
{
    if idxs.len() == 1 {
        assert(regions_of(idxs, data) =~= Seq::<Seq<T>>::empty());
        assert(regions_of(idxs, data).flatten() =~= data);
    } else {
        let c = idxs[1] - idxs[0];
        let tail = data.subrange(c, data.len() as int);
        let idxs2 = idxs.drop_first();
        assert(idxs[1] <= idxs[idxs.len() - 1]);
        assert(offsets_span(idxs2, tail));
        lemma_regions_reassemble(idxs2, tail);
        let rs = regions_of(idxs, data);
        assert forall|k: int| 0 <= k < idxs2.len() - 1 implies rs.drop_first()[k]
            == regions_of(idxs2, tail)[k] by {
            assert(idxs[k + 2] <= idxs[idxs.len() - 1]);
            assert(idxs[1] <= idxs[k + 1]);
            assert(tail.subrange(idxs2[k] - idxs2[0], idxs2[k + 1] - idxs2[0]) =~= data.subrange(
                idxs[k + 1] - idxs[0],
                idxs[k + 2] - idxs[0],
            ));
        }
        assert(rs.drop_first() =~= regions_of(idxs2, tail));
        assert(rs.first() == data.subrange(0, c));
        assert(data.subrange(0, c) + tail =~= data);
    }
}

/// Every buffer that matches the flattened sources is the same buffer: any
/// two results that satisfy the one concatenation contract agree, so all
/// concatenation variants produce identical output on identical input.
pub proof fn lemma_concat_results_agree<T>(ss: Seq<Seq<T>>, a: Seq<T>, b: Seq<T>)
    requires
        a == ss.flatten(),
        b == ss.flatten(),
    ensures
        a == b,
{
}

} // verus!
