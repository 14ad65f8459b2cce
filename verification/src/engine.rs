//! The concatenation engine: builds the offset partition from the source
//! lengths, allocates the destination (zero-initialized or with the pre-fill
//! skipped), and drives the paired splitter either sequentially or through
//! the work-stealing pool. All four entry points promise the same output.

use vstd::prelude::*;
use vstd::seq_lib::lemma_flatten_concat;

use num::traits::Zero;

use crate::model::lemma_flatten_all_empty;
use crate::model::lemma_flatten_take_all;
use crate::model::lemma_flatten_take_mono;
use crate::model::lemma_flatten_take_succ;
use crate::model::views_of;
use crate::splitter::SplitState;

verus! {

/// Relies on num's `Zero::zero`, the additive identity of `T`, to pre-fill a
/// destination buffer before every element of it is overwritten. Nothing is
/// assumed of the value it returns.
#[verifier::external_body]
fn zero_value<T: Zero>() -> T {
    T::zero()
}

/// Relies on rayon's `join`: it runs both closures to completion, possibly on
/// separate worker threads of the pool, and returns their results in order.
/// Each closure only calls the verified `fill_parallel` on its own half, so
/// the results are what `fill_parallel` ensures of each half.
#[verifier::external_body]
fn join_fill<'idxs, 'slices, 'slices2, T: Copy + Send + Sync>(
    left: SplitState<'idxs, 'slices, 'slices2, T>,
    right: SplitState<'idxs, 'slices, 'slices2, T>,
) -> (r: (Vec<T>, Vec<T>))
    requires
        left.wf(),
        left.matched(),
        right.wf(),
        right.matched(),
    ensures
        r.0@ == views_of(left.slices@).flatten(),
        r.1@ == views_of(right.slices@).flatten(),
{
    rayon::join(|| fill_parallel(left), || fill_parallel(right))
}

/// The offset of each source slice in the concatenated output: offset `k` is
/// the total length of the sources before source `k`, and one final offset
/// carries the total length of all of them.
fn build_offsets<T>(slices: &[&[T]]) -> (r: Vec<usize>)
    requires
        views_of(slices@).flatten().len() <= usize::MAX,
    ensures
        r@.len() == slices@.len() + 1,
        forall|k: int|
            0 <= k < r@.len() ==> #[trigger] r@[k] == views_of(slices@).take(k).flatten().len(),
        crate::model::offsets_ordered(r@),
        r@.first() == 0,
        r@.last() == views_of(slices@).flatten().len(),
{
    let ghost vs = views_of(slices@);
    let mut idxs: Vec<usize> = Vec::new();
    let mut sofar: usize = 0;
    let mut i: usize = 0;
    while i < slices.len()
        invariant
            views_of(slices@).flatten().len() <= usize::MAX,
            vs == views_of(slices@),
            i <= slices@.len(),
            sofar == vs.take(i as int).flatten().len(),
            idxs@.len() == i,
            forall|k: int| 0 <= k < i ==> #[trigger] idxs@[k] == vs.take(k).flatten().len(),
        decreases slices@.len() - i,
    {
        idxs.push(sofar);
        let l: usize = slices[i].len();
        proof {
            lemma_flatten_take_succ(vs, i as int);
            lemma_flatten_take_mono(vs, i as int + 1, vs.len() as int);
            lemma_flatten_take_all(vs);
            assert(vs[i as int] == slices@[i as int]@);
        }
        sofar = sofar + l;
        i = i + 1;
    }
    idxs.push(sofar);
    proof {
        lemma_flatten_take_all(vs);
        assert forall|a: int, b: int| 0 <= a <= b < idxs@.len() implies #[trigger] idxs@[a]
            <= #[trigger] idxs@[b] by {
            lemma_flatten_take_mono(vs, a, b);
        }
        assert(vs.take(0).flatten() =~= Seq::<T>::empty());
    }
    idxs
}

/// An owned buffer of `n` copies of `value`.
fn filled_with<T: Copy>(value: T, n: usize) -> (r: Vec<T>)
    ensures
        r@.len() == n,
{
    let mut r: Vec<T> = Vec::with_capacity(n);
    while r.len() < n
        invariant
            r@.len() <= n,
        decreases n - r@.len(),
    {
        r.push(value);
    }
    r
}

/// An owned buffer of length `total` with unspecified contents, seeded from
/// whatever element the sources offer: the zero pre-fill is skipped, which is
/// sound only because the caller overwrites every element before reading any.
/// When every source is empty, the total is zero and no seed is needed.
fn seeded_buffer<T: Copy>(slices: &[&[T]], total: usize) -> (r: Vec<T>)
    requires
        total == views_of(slices@).flatten().len(),
    ensures
        r@.len() == total,
{
    let mut i: usize = 0;
    while i < slices.len()
        invariant
            i <= slices@.len(),
            forall|k: int| 0 <= k < i ==> #[trigger] slices@[k]@.len() == 0,
            total == views_of(slices@).flatten().len(),
        decreases slices@.len() - i,
    {
        if slices[i].len() > 0 {
            let seed: T = slices[i][0];
            return filled_with(seed, total);
        }
        i = i + 1;
    }
    proof {
        assert forall|k: int| 0 <= k < views_of(slices@).len() implies #[trigger] views_of(
            slices@,
        )[k].len() == 0 by {
            assert(slices@[k]@.len() == 0);
        }
        lemma_flatten_all_empty(views_of(slices@));
    }
    Vec::new()
}

/// Overwrites the destination region with a bulk copy of its source slice.
fn fill_chunk<T: Copy>(chunk: &mut Vec<T>, src: &[T])
    requires
        old(chunk)@.len() == src@.len(),
    ensures
        final(chunk)@ == src@,
{
    chunk.clear();
    let mut i: usize = 0;
    while i < src.len()
        invariant
            i <= src@.len(),
            chunk@ == src@.subrange(0, i as int),
        decreases src@.len() - i,
    {
        chunk.push(src[i]);
        proof {
            assert(chunk@ =~= src@.subrange(0, i as int + 1));
        }
        i = i + 1;
    }
    proof {
        assert(src@.subrange(0, src@.len() as int) =~= src@);
    }
}

/// Drains the paired splitter sequentially: each source slice is bulk-copied
/// into its own destination region, and the regions are reassembled in order.
fn fill_sequential<T: Copy>(st: SplitState<'_, '_, '_, T>) -> (r: Vec<T>)
    requires
        st.wf(),
        st.matched(),
    ensures
        r@ == views_of(st.slices@).flatten(),
{
    let ghost all = views_of(st.slices@);
    let mut st = st;
    let mut out: Vec<T> = Vec::new();
    loop
        invariant
            st.wf(),
            st.matched(),
            out@ + views_of(st.slices@).flatten() == all.flatten(),
        ensures
            st.slices@.len() == 0,
        decreases st.idxs@.len(),
    {
        let ghost pre = st;
        match st.next() {
            Some((mut chunk, src)) => {
                proof {
                    assert(chunk@.len() == pre.idxs@[1] - pre.idxs@[0]);
                    assert(pre.slices@[0]@.len() == pre.idxs@[1] - pre.idxs@[0]);
                }
                fill_chunk(&mut chunk, src);
                proof {
                    let pvs = views_of(pre.slices@);
                    assert(views_of(st.slices@) =~= pvs.drop_first());
                    assert(pvs.flatten() == pvs.first() + pvs.drop_first().flatten());
                    assert((out@ + src@) + views_of(st.slices@).flatten() =~= out@ + (src@
                        + views_of(st.slices@).flatten()));
                }
                out.append(&mut chunk);
            },
            None => {
                break;
            },
        }
    }
    proof {
        assert(views_of(st.slices@) =~= Seq::<Seq<T>>::empty());
        assert(out@ + Seq::<T>::empty() =~= out@);
    }
    out
}

/// Drains the paired splitter as a divide-and-conquer producer: while more
/// than one pair remains it bisects at the midpoint and hands both halves to
/// the work-stealing pool, which may run them concurrently; a single pair is
/// copied sequentially. Safe because bisection consumes its parent, so the
/// two halves own disjoint parts of the destination.
fn fill_parallel<T: Copy + Send + Sync>(st: SplitState<'_, '_, '_, T>) -> (r: Vec<T>)
    requires
        st.wf(),
        st.matched(),
    ensures
        r@ == views_of(st.slices@).flatten(),
{
    let n: usize = st.remaining_count();
    if n <= 1 {
        fill_sequential(st)
    } else {
        let ghost all = views_of(st.slices@);
        let mid: usize = n / 2;
        let (left, right) = st.split_at(mid);
        proof {
            assert(views_of(left.slices@) =~= all.take(mid as int));
            assert(views_of(right.slices@) =~= all.skip(mid as int));
            assert(all.take(mid as int) + all.skip(mid as int) =~= all);
            lemma_flatten_concat(all.take(mid as int), all.skip(mid as int));
        }
        let (mut lv, mut rv) = join_fill(left, right);
        lv.append(&mut rv);
        lv
    }
}

/// Offsets built from the prefix sums of the source lengths pair a buffer of
/// the total length with the sources: each region is as long as its slice.
proof fn lemma_offsets_match_slices<T>(idxs: Seq<usize>, slices: Seq<&[T]>, data: Seq<T>)
    requires
        idxs.len() == slices.len() + 1,
        forall|k: int|
            0 <= k < idxs.len() ==> #[trigger] idxs[k] == views_of(slices).take(
                k,
            ).flatten().len(),
        crate::model::offsets_ordered(idxs),
        data.len() == views_of(slices).flatten().len(),
    ensures
        crate::model::offsets_span(idxs, data),
        forall|k: int|
            0 <= k < slices.len() ==> (#[trigger] slices[k]@.len()) == idxs[k + 1] - idxs[k],
{
    let vs = views_of(slices);
    lemma_flatten_take_all(vs);
    assert(idxs.last() == vs.take(idxs.len() - 1).flatten().len());
    assert(vs.take(0) =~= Seq::<Seq<T>>::empty());
    assert forall|k: int| 0 <= k < slices.len() implies (#[trigger] slices[k]@.len()) == idxs[k + 1]
        - idxs[k] by {
        lemma_flatten_take_succ(vs, k);
        assert(vs[k] == slices[k]@);
    }
}

/// Concatenates the sources in order into one owned buffer: serial, with a
/// zero-initialized destination.
pub fn concat_slices<T: Copy + Zero>(slices: &[&[T]]) -> (r: Vec<T>)
    requires
        views_of(slices@).flatten().len() <= usize::MAX,
    ensures
        r@ == views_of(slices@).flatten(),
{
    let idxs = build_offsets(slices);
    let total: usize = idxs[idxs.len() - 1];
    let zero: T = zero_value();
    let dest = filled_with(zero, total);
    let st = SplitState { idxs: idxs.as_slice(), slices, data: dest };
    proof {
        lemma_offsets_match_slices(idxs@, slices@, dest@);
    }
    fill_sequential(st)
}

/// Concatenates the sources in order into one owned buffer: serial, skipping
/// the zero pre-fill. The destination starts with unspecified contents and is
/// sound only because every region of it is overwritten by its bulk copy, a
/// property the splitter's exhaustive partition guarantees; the output is
/// identical to `concat_slices`.
pub fn unsafe_concat_slices<T: Copy>(slices: &[&[T]]) -> (r: Vec<T>)
    requires
        views_of(slices@).flatten().len() <= usize::MAX,
    ensures
        r@ == views_of(slices@).flatten(),
{
    let idxs = build_offsets(slices);
    let total: usize = idxs[idxs.len() - 1];
    let dest = seeded_buffer(slices, total);
    let st = SplitState { idxs: idxs.as_slice(), slices, data: dest };
    proof {
        lemma_offsets_match_slices(idxs@, slices@, dest@);
    }
    fill_sequential(st)
}

/// Concatenates the sources in order into one owned buffer: the per-region
/// bulk copies are handed to the work-stealing pool, with a zero-initialized
/// destination. The output is identical to `concat_slices`.
pub fn par_concat_slices<T: Copy + Zero + Send + Sync>(slices: &[&[T]]) -> (r: Vec<T>)
    requires
        views_of(slices@).flatten().len() <= usize::MAX,
    ensures
        r@ == views_of(slices@).flatten(),
{
    let idxs = build_offsets(slices);
    let total: usize = idxs[idxs.len() - 1];
    let zero: T = zero_value();
    let dest = filled_with(zero, total);
    let st = SplitState { idxs: idxs.as_slice(), slices, data: dest };
    proof {
        lemma_offsets_match_slices(idxs@, slices@, dest@);
    }
    fill_parallel(st)
}

/// Concatenates the sources in order into one owned buffer: parallel, and
/// skipping the zero pre-fill as `unsafe_concat_slices` does. The output is
/// identical to `concat_slices`.
pub fn unsafe_par_concat_slices<T: Copy + Send + Sync>(slices: &[&[T]]) -> (r: Vec<T>)
    requires
        views_of(slices@).flatten().len() <= usize::MAX,
    ensures
        r@ == views_of(slices@).flatten(),
{
    let idxs = build_offsets(slices);
    let total: usize = idxs[idxs.len() - 1];
    let dest = seeded_buffer(slices, total);
    let st = SplitState { idxs: idxs.as_slice(), slices, data: dest };
    proof {
        lemma_offsets_match_slices(idxs@, slices@, dest@);
    }
    fill_parallel(st)
}

} // verus!
