use vstd::prelude::*;
use crate::dsp::ring::{SpscRing, push_taken, consume_taken, rounded_capacity, lemma_rounded_capacity_unique};

verus! {

/// What [`resync_backlog`] did to a pair of rings.
#[derive(Clone, Copy, PartialEq, Eq, Debug, Structural)]
pub struct Resync {
    /// The rings held different amounts and were both emptied.
    pub cleared: bool,
    /// Samples dropped from the front of each ring to cut a backlog.
    pub dropped: usize,
}

/// Keeps the left and right rings of the analysis in step and its latency
/// bounded. Rings that hold different amounts are both emptied. When more
/// than `limit` samples wait, the oldest are dropped from both so that one
/// `window` is left.
pub fn resync_backlog<T: Copy>(
    left: &mut SpscRing<T>,
    right: &mut SpscRing<T>,
    window: usize,
    limit: usize,
) -> (r: Resync)
    requires
        old(left).wf(),
        old(right).wf(),
        window <= limit,
    ensures
        final(left).wf(),
        final(right).wf(),
        final(left).cap() == old(left).cap(),
        final(right).cap() == old(right).cap(),
        r.cleared == (old(left)@.len() != old(right)@.len()),
        r.cleared ==> final(left)@ == Seq::<T>::empty() && final(right)@ == Seq::<T>::empty()
            && r.dropped == 0,
        !r.cleared && old(left)@.len() > limit ==> r.dropped == old(left)@.len() - window
            && final(left)@ == old(left)@.skip(r.dropped as int) && final(right)@ == old(
            right,
        )@.skip(r.dropped as int),
        !r.cleared && old(left)@.len() <= limit ==> r.dropped == 0 && final(left)@ == old(left)@
            && final(right)@ == old(right)@,
        final(left)@.len() == final(right)@.len(),
        final(left)@.len() <= limit,
{
    let mut cleared = false;
    if left.available() != right.available() {
        left.clear();
        right.clear();
        cleared = true;
    }
    let backlog = left.available();
    let mut dropped: usize = 0;
    if backlog > limit {
        dropped = backlog - window;
        left.consume(dropped);
        right.consume(dropped);
    }
    Resync { cleared, dropped }
}

/// The left and right rings of the analysis, written and read alike: both
/// have the same capacity and always hold the same number of samples.
pub struct StereoRings<T> {
    left: SpscRing<T>,
    right: SpscRing<T>,
}

impl<T: Copy> StereoRings<T> {
    /// Both rings are well formed, of one capacity, and in step.
    pub closed spec fn wf(&self) -> bool {
        &&& self.left.wf()
        &&& self.right.wf()
        &&& self.left.cap() == self.right.cap()
        &&& self.left@.len() == self.right@.len()
    }

    /// Slots of each ring.
    pub closed spec fn cap(&self) -> nat {
        self.left.cap()
    }

    /// Held left samples, oldest first.
    pub closed spec fn left_samples(&self) -> Seq<T> {
        self.left@
    }

    /// Held right samples, oldest first.
    pub closed spec fn right_samples(&self) -> Seq<T> {
        self.right@
    }

    /// Samples held per channel.
    pub fn available(&self) -> (r: usize)
        requires
            self.wf(),
        ensures
            r == self.left_samples().len(),
            r == self.right_samples().len(),
    {
        self.left.available()
    }

    /// Appends the leading samples of `l` and `r`, as many as fit, to the
    /// left and right rings, and returns how many.
    pub fn push(&mut self, l: &[T], r: &[T]) -> (n: usize)
        requires
            old(self).wf(),
            l@.len() == r@.len(),
        ensures
            final(self).wf(),
            final(self).cap() == old(self).cap(),
            n as int == push_taken(
                old(self).cap() as int,
                old(self).left_samples().len() as int,
                l@.len() as int,
            ),
            final(self).left_samples() == old(self).left_samples() + l@.take(n as int),
            final(self).right_samples() == old(self).right_samples() + r@.take(n as int),
            // Both channels take the whole offer, or fill up to capacity.
            n <= l@.len(),
            n == l@.len() || final(self).left_samples().len() == final(self).cap(),
    {
        let n = self.left.push(l);
        self.right.push(r);
        n
    }

    /// Copies the oldest samples of each channel into `out_l` and `out_r`
    /// without releasing them. Fails when either channel holds fewer than
    /// asked; the right channel is looked at only when the left succeeded.
    pub fn peek(&self, out_l: &mut [T], out_r: &mut [T]) -> (ok: bool)
        requires
            self.wf(),
        ensures
            ok == (old(out_l)@.len() <= self.left_samples().len() && old(out_r)@.len()
                <= self.right_samples().len()),
            old(out_l)@.len() <= self.left_samples().len() ==> final(out_l)@
                == self.left_samples().take(old(out_l)@.len() as int),
            old(out_l)@.len() > self.left_samples().len() ==> final(out_l)@ == old(out_l)@,
            ok ==> final(out_r)@ == self.right_samples().take(old(out_r)@.len() as int),
            !ok && old(out_r)@.len() > self.right_samples().len() ==> final(out_r)@ == old(out_r)@,
            old(out_l)@.len() > self.left_samples().len() ==> final(out_r)@ == old(out_r)@,
    {
        self.left.peek(out_l) && self.right.peek(out_r)
    }

    /// Releases the `n` oldest samples of each channel, or all of them.
    pub fn consume(&mut self, n: usize)
        requires
            old(self).wf(),
        ensures
            final(self).wf(),
            final(self).cap() == old(self).cap(),
            final(self).left_samples() == old(self).left_samples().skip(
                consume_taken(old(self).left_samples().len() as int, n as int),
            ),
            final(self).right_samples() == old(self).right_samples().skip(
                consume_taken(old(self).right_samples().len() as int, n as int),
            ),
    {
        self.left.consume(n);
        self.right.consume(n);
    }

    /// Bounds the latency: [`resync_backlog`] on the two rings. Since they
    /// are kept in step, they are never found apart and never emptied.
    pub fn resync(&mut self, window: usize, limit: usize) -> (r: Resync)
        requires
            old(self).wf(),
            window <= limit,
        ensures
            final(self).wf(),
            final(self).cap() == old(self).cap(),
            !r.cleared,
            old(self).left_samples().len() > limit ==> r.dropped == old(self).left_samples().len()
                - window && final(self).left_samples() == old(self).left_samples().skip(
                r.dropped as int,
            ) && final(self).right_samples() == old(self).right_samples().skip(r.dropped as int),
            old(self).left_samples().len() <= limit ==> r.dropped == 0 && final(self).left_samples()
                == old(self).left_samples() && final(self).right_samples() == old(self).right_samples(),
            final(self).left_samples().len() <= limit,
    {
        resync_backlog(&mut self.left, &mut self.right, window, limit)
    }
}

impl<T: Copy + Default> StereoRings<T> {
    /// Two empty rings of at least `capacity` slots each, rounded as
    /// [`SpscRing::new`] rounds.
    pub fn new(capacity: usize) -> (r: Self)
        requires
            capacity <= usize::MAX / 2 + 1,
        ensures
            r.wf(),
            rounded_capacity(capacity as int, r.cap() as int),
            r.left_samples() == Seq::<T>::empty(),
            r.right_samples() == Seq::<T>::empty(),
    {
        let left = SpscRing::new(capacity);
        let right = SpscRing::new(capacity);
        proof {
            lemma_rounded_capacity_unique(capacity as int, left.cap() as int, right.cap() as int);
        }
        StereoRings { left, right }
    }
}

/// Fixed-size staging of stereo samples between the capture callback and
/// the rings: samples are collected in pairs and handed to the rings a
/// whole batch at a time, and what a full ring refuses of a whole batch is
/// counted as lost.
pub struct CaptureBatch<T> {
    left: Vec<T>,
    right: Vec<T>,
    size: usize,
    dropped_total: usize,
}

impl<T: Copy> CaptureBatch<T> {
    /// The staged samples of both channels are as many, fewer than a batch.
    pub closed spec fn wf(&self) -> bool {
        &&& self.size >= 1
        &&& self.left@.len() == self.right@.len()
        &&& self.left@.len() < self.size
    }

    /// Staged left samples, oldest first.
    pub closed spec fn pending_left(&self) -> Seq<T> {
        self.left@
    }

    /// Staged right samples, oldest first.
    pub closed spec fn pending_right(&self) -> Seq<T> {
        self.right@
    }

    /// Samples per batch.
    pub closed spec fn batch_size(&self) -> nat {
        self.size as nat
    }

    /// Samples of whole batches that the rings refused so far.
    pub closed spec fn lost(&self) -> nat {
        self.dropped_total as nat
    }

    /// An empty staging area for batches of `size` samples per channel.
    pub fn new(size: usize) -> (r: Self)
        requires
            size >= 1,
        ensures
            r.wf(),
            r.batch_size() == size,
            r.pending_left() == Seq::<T>::empty(),
            r.pending_right() == Seq::<T>::empty(),
            r.lost() == 0,
    {
        CaptureBatch {
            left: Vec::with_capacity(size),
            right: Vec::with_capacity(size),
            size,
            dropped_total: 0,
        }
    }

    /// Samples of whole batches refused so far.
    pub fn dropped(&self) -> (r: usize)
        ensures
            r == self.lost(),
    {
        self.dropped_total
    }

    /// Stages one stereo sample. When this completes a batch, the batch goes
    /// to the rings, which take what fits, the refused part is added to the
    /// lost count (saturating), and staging starts over.
    pub fn accept(&mut self, l: T, r: T, rings: &mut StereoRings<T>)
        requires
            old(self).wf(),
            old(rings).wf(),
        ensures
            final(self).wf(),
            final(rings).wf(),
            final(self).batch_size() == old(self).batch_size(),
            final(rings).cap() == old(rings).cap(),
            ({
                let pl = old(self).pending_left().push(l);
                let pr = old(self).pending_right().push(r);
                if pl.len() < old(self).batch_size() {
                    &&& final(self).pending_left() == pl
                    &&& final(self).pending_right() == pr
                    &&& final(rings).left_samples() == old(rings).left_samples()
                    &&& final(rings).right_samples() == old(rings).right_samples()
                    &&& final(self).lost() == old(self).lost()
                } else {
                    let taken = push_taken(
                        old(rings).cap() as int,
                        old(rings).left_samples().len() as int,
                        pl.len() as int,
                    );
                    &&& final(self).pending_left() == Seq::<T>::empty()
                    &&& final(self).pending_right() == Seq::<T>::empty()
                    &&& final(rings).left_samples() == old(rings).left_samples() + pl.take(taken)
                    &&& final(rings).right_samples() == old(rings).right_samples() + pr.take(taken)
                    &&& final(self).lost() == min_int(
                        old(self).lost() + pl.len() - taken,
                        usize::MAX as int,
                    )
                }
            }),
            // Every left sample offered is staged, in the ring, or counted
            // as lost, as long as the count has not saturated.
            old(self).lost() + old(self).batch_size() <= usize::MAX ==> final(rings).left_samples().len()
                + final(self).pending_left().len() + final(self).lost() == old(rings).left_samples().len()
                + old(self).pending_left().len() + 1 + old(self).lost(),
    {
        self.left.push(l);
        self.right.push(r);
        if self.left.len() == self.size {
            let wrote = rings.push(self.left.as_slice(), self.right.as_slice());
            if wrote < self.size {
                self.dropped_total = self.dropped_total.saturating_add(self.size - wrote);
            }
            self.left.clear();
            self.right.clear();
        }
    }

    /// Hands whatever is staged to the rings, which take what fits; what
    /// they refuse here is not counted.
    pub fn flush(&mut self, rings: &mut StereoRings<T>)
        requires
            old(self).wf(),
            old(rings).wf(),
        ensures
            final(self).wf(),
            final(rings).wf(),
            final(self).batch_size() == old(self).batch_size(),
            final(self).lost() == old(self).lost(),
            final(self).pending_left() == Seq::<T>::empty(),
            final(self).pending_right() == Seq::<T>::empty(),
            final(rings).cap() == old(rings).cap(),
            ({
                let taken = push_taken(
                    old(rings).cap() as int,
                    old(rings).left_samples().len() as int,
                    old(self).pending_left().len() as int,
                );
                &&& final(rings).left_samples() == old(rings).left_samples() + old(self).pending_left().take(taken)
                &&& final(rings).right_samples() == old(rings).right_samples() + old(self).pending_right().take(taken)
            }),
    {
        if self.left.len() > 0 {
            rings.push(self.left.as_slice(), self.right.as_slice());
            self.left.clear();
            self.right.clear();
        } else {
            proof {
                rings.left.law_len_within_capacity();
            }
            assert(rings.left@ =~= rings.left@ + self.left@.take(0));
            assert(rings.right@ =~= rings.right@ + self.right@.take(0));
        }
    }
}

/// The smaller of two integers.
pub open spec fn min_int(a: int, b: int) -> int {
    if a < b {
        a
    } else {
        b
    }
}

} // verus!
