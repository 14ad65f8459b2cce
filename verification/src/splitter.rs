//! Disjoint splitting of one owned buffer into the regions named by an
//! ordered offset sequence. Ownership is linear: `next` detaches the first
//! region and `split_at` consumes the splitter and returns two independent
//! halves, so distinct sub-buffers never overlap by construction.

use vstd::prelude::*;
use vstd::slice::slice_subrange;

use crate::model::offsets_ordered;
use crate::model::offsets_span;
use crate::model::regions_of;
use crate::model::vec_views_of;

verus! {

/// A partitioned buffer: an ordered offset sequence names one region per
/// adjacent offset pair inside the owned buffer `data`. Drawing a region or
/// bisecting hands ownership of disjoint parts onward, so no two live
/// sub-buffers ever overlap.
pub struct SubSlices<'idxs, T> {
    pub idxs: &'idxs [usize],
    pub data: Vec<T>,
}

impl<'idxs, T> SubSlices<'idxs, T> {
    /// The offsets are ordered and span exactly the owned buffer.
    pub open spec fn wf(self) -> bool {
        offsets_span(self.idxs@, self.data@)
    }

    /// The regions this splitter still holds, in order.
    pub open spec fn regions(self) -> Seq<Seq<T>> {
        regions_of(self.idxs@, self.data@)
    }

    /// Exact count of regions left.
    pub fn remaining_count(&self) -> (n: usize)
        requires
            self.wf(),
        ensures
            n == self.regions().len(),
    {
        self.idxs.len() - 1
    }

    /// Detaches the first region, leaving the splitter holding the rest.
    /// Returns nothing once fewer than two offsets remain.
    pub fn next(&mut self) -> (r: Option<Vec<T>>)
        requires
            old(self).wf(),
        ensures
            final(self).wf(),
            old(self).idxs@.len() == 1 ==> r is None && final(self).idxs@ == old(self).idxs@
                && final(self).data@ == old(self).data@,
            old(self).idxs@.len() >= 2 ==> r is Some && r.unwrap()@ == old(self).regions().first()
                && final(self).idxs@ == old(self).idxs@.drop_first() && final(self).data@ == old(
                self,
            ).data@.subrange(
                old(self).idxs@[1] - old(self).idxs@[0],
                old(self).data@.len() as int,
            ),
    {
        if self.idxs.len() < 2 {
            return None;
        }
        let start: usize = self.idxs[0];
        let end: usize = self.idxs[1];
        proof {
            assert(self.idxs@[0] <= self.idxs@[1]);
            assert(self.idxs@[1] <= self.idxs@[self.idxs@.len() - 1]);
        }
        let chunk_len: usize = end - start;
        let mut chunk = self.data.split_off(chunk_len);
        core::mem::swap(&mut self.data, &mut chunk);
        self.idxs = slice_subrange(self.idxs, 1, self.idxs.len());
        proof {
            assert(self.idxs@ =~= old(self).idxs@.drop_first());
        }
        Some(chunk)
    }

    /// Bisects into a left splitter owning regions `[0, mid)` and a right one
    /// owning `[mid, end)`: the offset sequence is cut at index `mid` with the
    /// boundary shared, and the buffer is cut at the matching element offset.
    /// The parent is consumed, so the two halves are the only owners of the
    /// buffer, and they are disjoint and exactly adjacent by construction.
    pub fn split_at(self, mid: usize) -> (r: (Self, Self))
        requires
            self.wf(),
            0 < mid < self.idxs@.len() - 1,
        ensures
            r.0.wf(),
            r.1.wf(),
            r.0.idxs@ == self.idxs@.subrange(0, mid + 1),
            r.1.idxs@ == self.idxs@.subrange(mid as int, self.idxs@.len() as int),
            r.0.data@ == self.data@.subrange(0, self.idxs@[mid as int] - self.idxs@[0]),
            r.1.data@ == self.data@.subrange(
                self.idxs@[mid as int] - self.idxs@[0],
                self.data@.len() as int,
            ),
            r.0.data@ + r.1.data@ == self.data@,
            r.0.regions().len() == mid,
            r.1.regions().len() == self.regions().len() - mid,
    {
        proof {
            assert(self.idxs@[0] <= self.idxs@[mid as int]);
            assert(self.idxs@[mid as int] <= self.idxs@[self.idxs@.len() - 1]);
        }
        let cut: usize = self.idxs[mid] - self.idxs[0];
        let idxs_l = slice_subrange(self.idxs, 0, mid + 1);
        let idxs_r = slice_subrange(self.idxs, mid, self.idxs.len());
        let mut data_l = self.data;
        let data_r = data_l.split_off(cut);
        proof {
            assert(data_l@ + data_r@ =~= self.data@);
        }
        (SubSlices { idxs: idxs_l, data: data_l }, SubSlices { idxs: idxs_r, data: data_r })
    }
}

/// Partitions an owned buffer by an ordered offset sequence into one owned
/// sub-buffer per adjacent offset pair. The pieces are pairwise disjoint and
/// jointly exhaustive: concatenated in order they are exactly the input
/// buffer (see `lemma_regions_reassemble`).
pub fn split_buffer_by_offsets<T>(idxs: &[usize], data: Vec<T>) -> (r: Vec<Vec<T>>)
    requires
        offsets_span(idxs@, data@),
    ensures
        r@.len() == idxs@.len() - 1,
        forall|k: int|
            0 <= k < r@.len() ==> #[trigger] r@[k]@ == regions_of(idxs@, data@)[k],
        vec_views_of(r@).flatten() == data@,
{
    let ghost orig_idxs = idxs@;
    let ghost orig_data = data@;
    let mut splitter = SubSlices { idxs, data };
    let mut r: Vec<Vec<T>> = Vec::new();
    loop
        invariant
            splitter.wf(),
            r@.len() + splitter.regions().len() == orig_idxs.len() - 1,
            forall|k: int|
                0 <= k < r@.len() ==> #[trigger] r@[k]@ == regions_of(orig_idxs, orig_data)[k],
            forall|k: int|
                0 <= k < splitter.regions().len() ==> #[trigger] splitter.regions()[k]
                    == regions_of(orig_idxs, orig_data)[k + r@.len()],
        ensures
            splitter.regions().len() == 0,
        decreases splitter.idxs@.len(),
    {
        let ghost pre = splitter;
        match splitter.next() {
            Some(chunk) => {
                proof {
                    assert(chunk@ == regions_of(orig_idxs, orig_data)[r@.len() as int]);
                    assert forall|k: int| 0 <= k < splitter.regions().len() implies #[trigger]
                        splitter.regions()[k] == regions_of(orig_idxs, orig_data)[k + r@.len()
                        + 1] by {
                        assert(pre.idxs@[k + 1] <= pre.idxs@[pre.idxs@.len() - 1]);
                        assert(pre.idxs@[1] <= pre.idxs@[k + 1]);
                        assert(splitter.regions()[k] =~= pre.regions()[k + 1]);
                    }
                }
                r.push(chunk);
            },
            None => {
                break;
            },
        }
    }
    proof {
        crate::model::lemma_regions_reassemble(orig_idxs, orig_data);
        assert forall|k: int| 0 <= k < r@.len() implies #[trigger] vec_views_of(r@)[k]
            == regions_of(orig_idxs, orig_data)[k] by {
            assert(r@[k]@ == regions_of(orig_idxs, orig_data)[k]);
        }
        assert(vec_views_of(r@) =~= regions_of(orig_idxs, orig_data));
    }
    r
}

/// A partitioned destination buffer walked in lock-step with the matching
/// immutable source slices: the offset pair `k` names the destination region
/// that source slice `k` is to be copied into.
pub struct SplitState<'idxs, 'slices, 'slices2, T> {
    pub idxs: &'idxs [usize],
    pub slices: &'slices [&'slices2 [T]],
    pub data: Vec<T>,
}

impl<'idxs, 'slices, 'slices2, T> SplitState<'idxs, 'slices, 'slices2, T> {
    /// The offsets are ordered, span exactly the owned buffer, and name one
    /// region per source slice.
    pub open spec fn wf(self) -> bool {
        &&& offsets_span(self.idxs@, self.data@)
        &&& self.idxs@.len() == self.slices@.len() + 1
    }

    /// Each destination region is exactly as long as its source slice.
    pub open spec fn matched(self) -> bool {
        forall|k: int|
            0 <= k < self.slices@.len() ==> (#[trigger] self.slices@[k]@.len()) == self.idxs@[k
                + 1] - self.idxs@[k]
    }

    /// The destination regions this splitter still holds, in order.
    pub open spec fn regions(self) -> Seq<Seq<T>> {
        regions_of(self.idxs@, self.data@)
    }

    /// Exact count of (region, source slice) pairs left.
    pub fn remaining_count(&self) -> (n: usize)
        requires
            self.wf(),
        ensures
            n == self.slices@.len(),
    {
        self.idxs.len() - 1
    }

    /// Detaches the first destination region together with its source slice,
    /// leaving the splitter holding the rest. Returns nothing once fewer than
    /// two offsets remain.
    pub fn next(&mut self) -> (r: Option<(Vec<T>, &'slices2 [T])>)
        requires
            old(self).wf(),
        ensures
            final(self).wf(),
            old(self).matched() ==> final(self).matched(),
            old(self).slices@.len() == 0 ==> {
                &&& r is None
                &&& final(self).idxs@ == old(self).idxs@
                &&& final(self).slices@ == old(self).slices@
                &&& final(self).data@ == old(self).data@
            },
            old(self).slices@.len() >= 1 ==> {
                &&& r is Some
                &&& r.unwrap().0@ == old(self).regions().first()
                &&& r.unwrap().1 == old(self).slices@[0]
                &&& final(self).idxs@ == old(self).idxs@.drop_first()
                &&& final(self).slices@ == old(self).slices@.drop_first()
                &&& final(self).data@ == old(self).data@.subrange(
                    old(self).idxs@[1] - old(self).idxs@[0],
                    old(self).data@.len() as int,
                )
            },
    {
        if self.idxs.len() < 2 {
            return None;
        }
        let start: usize = self.idxs[0];
        let end: usize = self.idxs[1];
        proof {
            assert(self.idxs@[0] <= self.idxs@[1]);
            assert(self.idxs@[1] <= self.idxs@[self.idxs@.len() - 1]);
        }
        let chunk_len: usize = end - start;
        let mut chunk = self.data.split_off(chunk_len);
        core::mem::swap(&mut self.data, &mut chunk);
        let src: &'slices2 [T] = self.slices[0];
        self.idxs = slice_subrange(self.idxs, 1, self.idxs.len());
        self.slices = slice_subrange(self.slices, 1, self.slices.len());
        proof {
            assert(self.idxs@ =~= old(self).idxs@.drop_first());
            assert(self.slices@ =~= old(self).slices@.drop_first());
            if old(self).matched() {
                assert forall|k: int| 0 <= k < self.slices@.len() implies (
                #[trigger] self.slices@[k]@.len()) == self.idxs@[k + 1] - self.idxs@[k] by {
                    assert(old(self).slices@[k + 1]@.len() == old(self).idxs@[k + 2] - old(
                        self,
                    ).idxs@[k + 1]);
                }
            }
        }
        Some((chunk, src))
    }

    /// Bisects into a left splitter owning the pairs `[0, mid)` and a right
    /// one owning `[mid, end)`, cutting the offsets at index `mid` (boundary
    /// shared), the sources at index `mid`, and the buffer at the matching
    /// element offset. The parent is consumed, so the two halves are the only
    /// owners of the buffer, and they are disjoint and exactly adjacent.
    pub fn split_at(self, mid: usize) -> (r: (Self, Self))
        requires
            self.wf(),
            0 < mid < self.slices@.len(),
        ensures
            r.0.wf(),
            r.1.wf(),
            self.matched() ==> r.0.matched() && r.1.matched(),
            r.0.slices@ == self.slices@.subrange(0, mid as int),
            r.1.slices@ == self.slices@.subrange(mid as int, self.slices@.len() as int),
            r.0.data@ + r.1.data@ == self.data@,
    {
        proof {
            assert(self.idxs@[0] <= self.idxs@[mid as int]);
            assert(self.idxs@[mid as int] <= self.idxs@[self.idxs@.len() - 1]);
        }
        let cut: usize = self.idxs[mid] - self.idxs[0];
        let idxs_l = slice_subrange(self.idxs, 0, mid + 1);
        let idxs_r = slice_subrange(self.idxs, mid, self.idxs.len());
        let slices_l = slice_subrange(self.slices, 0, mid);
        let slices_r = slice_subrange(self.slices, mid, self.slices.len());
        let mut data_l = self.data;
        let data_r = data_l.split_off(cut);
        proof {
            assert(data_l@ + data_r@ =~= self.data@);
            if self.matched() {
                assert forall|k: int| 0 <= k < slices_r@.len() implies (
                #[trigger] slices_r@[k]@.len()) == idxs_r@[k + 1] - idxs_r@[k] by {
                    assert(self.slices@[k + mid]@.len() == self.idxs@[k + mid + 1] - self.idxs@[k
                        + mid]);
                }
            }
        }
        (
            SplitState { idxs: idxs_l, slices: slices_l, data: data_l },
            SplitState { idxs: idxs_r, slices: slices_r, data: data_r },
        )
    }
}

/// Partitions an owned destination buffer by an ordered offset sequence and
/// pairs each owned sub-buffer, in order, with its matching source slice.
pub fn split_slice_mut<'idxs, 'slices, 'slices2, T>(
    idxs: &'idxs [usize],
    slices: &'slices [&'slices2 [T]],
    data: Vec<T>,
) -> (r: Vec<(Vec<T>, &'slices2 [T])>)
    requires
        offsets_span(idxs@, data@),
        idxs@.len() == slices@.len() + 1,
    ensures
        r@.len() == slices@.len(),
        forall|k: int|
            0 <= k < r@.len() ==> (#[trigger] r@[k]).0@ == regions_of(idxs@, data@)[k] && r@[k].1
                == slices@[k],
{
    let ghost orig_idxs = idxs@;
    let ghost orig_slices = slices@;
    let ghost orig_data = data@;
    let mut splitter = SplitState { idxs, slices, data };
    let mut r: Vec<(Vec<T>, &'slices2 [T])> = Vec::new();
    loop
        invariant
            splitter.wf(),
            r@.len() + splitter.slices@.len() == orig_slices.len(),
            splitter.slices@ == orig_slices.subrange(r@.len() as int, orig_slices.len() as int),
            forall|k: int|
                0 <= k < r@.len() ==> (#[trigger] r@[k]).0@ == regions_of(orig_idxs, orig_data)[k]
                    && r@[k].1 == orig_slices[k],
            forall|k: int|
                0 <= k < splitter.regions().len() ==> #[trigger] splitter.regions()[k]
                    == regions_of(orig_idxs, orig_data)[k + r@.len()],
        ensures
            splitter.slices@.len() == 0,
        decreases splitter.idxs@.len(),
    {
        let ghost pre = splitter;
        match splitter.next() {
            Some(pair) => {
                proof {
                    assert(pair.0@ == regions_of(orig_idxs, orig_data)[r@.len() as int]);
                    assert(pair.1 == orig_slices[r@.len() as int]);
                    assert(splitter.slices@ =~= orig_slices.subrange(
                        r@.len() as int + 1,
                        orig_slices.len() as int,
                    ));
                    assert forall|k: int| 0 <= k < splitter.regions().len() implies #[trigger]
                        splitter.regions()[k] == regions_of(orig_idxs, orig_data)[k + r@.len()
                        + 1] by {
                        assert(pre.idxs@[k + 1] <= pre.idxs@[pre.idxs@.len() - 1]);
                        assert(pre.idxs@[1] <= pre.idxs@[k + 1]);
                        assert(splitter.regions()[k] =~= pre.regions()[k + 1]);
                    }
                }
                r.push(pair);
            },
            None => {
                break;
            },
        }
    }
    r
}

} // verus!
