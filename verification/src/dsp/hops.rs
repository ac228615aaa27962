//! Cutting a sample stream into the detector's hops: blocks of any length go
//! in, consecutive non-overlapping hops of a fixed size come out.

use crate::units::SampleIndex;
use vstd::prelude::*;

verus! {

/// The `i`-th hop of `size` samples of `s`.
pub open spec fn hop_of<T>(s: Seq<T>, size: nat, i: int) -> Seq<T> {
    s.subrange(i * size, (i + 1) * size)
}

/// What pushing `block` gives with `pending` waiting and hops of `size`:
/// the hops completed, in order, and what waits afterwards.
pub open spec fn spec_frame<T>(pending: Seq<T>, size: nat, block: Seq<T>) -> (Seq<Seq<T>>, Seq<T>) {
    let all = pending + block;
    let k = all.len() / size;
    (Seq::new(k, |i: int| hop_of(all, size, i)), all.subrange((k * size) as int, all.len() as int))
}

/// Samples not yet forming a whole hop, and the stream index of the first.
pub struct HopFramer<T> {
    size: usize,
    pending: Vec<T>,
    pending_index: SampleIndex,
}

proof fn lemma_hop_bounds(i: int, size: int, len: int)
    requires
        0 <= i,
        0 < size,
        i * size + size <= len,
    ensures
        0 <= i * size,
        i * size + size == (i + 1) * size,
        i * size <= len,
{
    assert((i + 1) * size == i * size + size) by (nonlinear_arith);
    assert(0 <= i * size) by (nonlinear_arith)
        requires
            0 <= i,
            0 < size,
    ;
}

impl<T: Copy> HopFramer<T> {
    pub closed spec fn spec_size(&self) -> nat {
        self.size as nat
    }

    /// Samples waiting for the rest of their hop.
    pub closed spec fn spec_pending(&self) -> Seq<T> {
        self.pending@
    }

    /// Stream index of the first waiting sample (or of the next hop).
    pub closed spec fn spec_pending_index(&self) -> int {
        self.pending_index.0 as int
    }

    pub open spec fn wf(&self) -> bool {
        &&& self.spec_size() > 0
        &&& self.spec_pending().len() < self.spec_size()
    }

    /// Hops of `size` samples, the first starting at `first_index`.
    pub fn new(size: usize, first_index: SampleIndex) -> (r: Self)
        requires
            size > 0,
        ensures
            r.wf(),
            r.spec_size() == size,
            r.spec_pending() == Seq::<T>::empty(),
            r.spec_pending_index() == first_index.0,
    {
        HopFramer { size, pending: Vec::new(), pending_index: first_index }
    }

    /// Stream index of the first sample not yet handed out in a hop.
    pub fn pending_index(&self) -> (r: SampleIndex)
        ensures
            r.0 == self.spec_pending_index(),
    {
        self.pending_index
    }

    /// Append a block; returns the hops it completes, in order. What was
    /// waiting and the block together are cut into whole hops; the rest waits.
    pub fn push(&mut self, block: &[T]) -> (r: Vec<Vec<T>>)
        requires
            old(self).wf(),
            old(self).spec_pending_index() + old(self).spec_pending().len() + block@.len() <= i64::MAX,
        ensures
            final(self).wf(),
            final(self).spec_size() == old(self).spec_size(),
            ({
                let (hops, rest) = spec_frame(old(self).spec_pending(), old(self).spec_size(), block@);
                &&& r@.len() == hops.len()
                &&& forall|i: int| 0 <= i < hops.len() ==> (#[trigger] r@[i])@ == hops[i]
                &&& final(self).spec_pending() == rest
                &&& final(self).spec_pending_index() == old(self).spec_pending_index() + hops.len() * old(self).spec_size()
            }),
    {
        let ghost all = self.pending@ + block@;
        let ghost size = self.size as int;
        let ghost base = self.pending_index.0 as int;
        let mut out: Vec<Vec<T>> = Vec::new();
        let mut pos: usize = 0;
        proof {
            assert(self.pending@ =~= all.subrange(0, self.pending@.len() as int));
            assert(0 * size == 0);
        }
        while pos < block.len()
            invariant
                pos <= block@.len(),
                all == old(self).pending@ + block@,
                size == self.size,
                size > 0,
                self.size == old(self).size,
                self.pending@.len() < size,
                out@.len() * size + self.pending@.len() == old(self).pending@.len() + pos,
                self.pending@ == all.subrange(out@.len() * size, old(self).pending@.len() + pos),
                forall|i: int| 0 <= i < out@.len() ==> (#[trigger] out@[i])@ == hop_of(all, size as nat, i),
                self.pending_index.0 == base + out@.len() * size,
                base == old(self).pending_index.0,
                base + all.len() <= i64::MAX,
            decreases block@.len() - pos,
        {
            let take = if self.size - self.pending.len() < block.len() - pos {
                self.size - self.pending.len()
            } else {
                block.len() - pos
            };
            let ghost start = out@.len() * size;
            let ghost p0 = self.pending@.len() as int;
            let ghost pi = self.pending_index;
            let mut t: usize = 0;
            while t < take
                invariant
                    t <= take,
                    pos + take <= block@.len(),
                    block@.len() == block.len(),
                    p0 + take <= size,
                    self.pending@.len() == p0 + t,
                    self.pending_index == pi,
                    all == old(self).pending@ + block@,
                    self.pending@ == all.subrange(start, old(self).pending@.len() + pos + t),
                    0 <= start <= old(self).pending@.len() + pos,
                    size == self.size,
                    self.size == old(self).size,
                decreases take - t,
            {
                self.pending.push(block[pos + t]);
                t = t + 1;
                assert(self.pending@ =~= all.subrange(start, old(self).pending@.len() + pos + t));
            }
            pos = pos + take;
            if self.pending.len() == self.size {
                let ghost j = out@.len() as int;
                proof {
                    lemma_hop_bounds(j, size, all.len() as int);
                }
                let mut hop: Vec<T> = Vec::new();
                std::mem::swap(&mut hop, &mut self.pending);
                assert(hop@ == hop_of(all, size as nat, j));
                out.push(hop);
                assert(out@.len() == j + 1);
                assert(base + (j + 1) * size <= i64::MAX);
                self.pending_index = SampleIndex(self.pending_index.0 + self.size as u64);
                assert(self.pending_index.0 == base + (j + 1) * size);
                proof {
                    assert(self.pending@ =~= all.subrange((j + 1) * size, old(self).pending@.len() + pos));
                }
            }
        }
        proof {
            let k = out@.len() as int;
            let len = all.len() as int;
            assert(k * size + self.pending@.len() == len);
            assert(k == len / size) by (nonlinear_arith)
                requires
                    k * size + self.pending@.len() == len,
                    0 <= self.pending@.len() < size,
                    0 <= k,
            ;
        }
        out
    }
}

/// `x` is `q` hops of `size` and a remainder shorter than a hop.
proof fn lemma_split_len(x: int, size: int)
    requires
        0 <= x,
        0 < size,
    ensures
        0 <= (x / size) * size <= x,
        x - (x / size) * size < size,
        0 <= x / size,
{
    vstd::arithmetic::div_mod::lemma_fundamental_div_mod(x, size);
    vstd::arithmetic::div_mod::lemma_mod_pos_bound(x, size);
    assert(size * (x / size) == (x / size) * size) by (nonlinear_arith);
    assert(0 <= x / size) by (nonlinear_arith)
        requires
            0 <= x,
            0 < size,
    ;
    assert(0 <= (x / size) * size) by (nonlinear_arith)
        requires
            0 <= x / size,
            0 < size,
    ;
}

/// Cutting a stream into hops does not depend on how it arrives in blocks:
/// pushing `a` and then `b` completes the hops that pushing `a + b` at once
/// completes, in the same order, and leaves the same samples waiting.
pub proof fn lemma_frame_split<T>(pending: Seq<T>, size: nat, a: Seq<T>, b: Seq<T>)
    requires
        size > 0,
    ensures
        ({
            let (h1, p1) = spec_frame(pending, size, a);
            let (h2, p2) = spec_frame(p1, size, b);
            spec_frame(pending, size, a + b) == (h1 + h2, p2)
        }),
{
    let s = size as int;
    let all1 = pending + a;
    let n1 = all1.len() as int;
    let k1 = n1 / s;
    lemma_split_len(n1, s);
    let p1 = all1.subrange(k1 * s, n1);
    let all2 = p1 + b;
    let n2 = all2.len() as int;
    let k2 = n2 / s;
    lemma_split_len(n2, s);
    let all = pending + (a + b);
    assert(all =~= all1 + b);
    let n = all.len() as int;
    assert(n == k1 * s + n2);
    assert((k1 + k2) * s == k1 * s + k2 * s) by (nonlinear_arith);
    vstd::arithmetic::div_mod::lemma_fundamental_div_mod_converse(n, s, k1 + k2, n2 - k2 * s);
    let k = n / s;
    assert(k == k1 + k2);
    // the stream from the first unfinished hop on is `all2`
    assert forall|x: int| 0 <= x < n2 implies #[trigger] all[k1 * s + x] == all2[x] by {
        if x < n1 - k1 * s {
            assert(all2[x] == p1[x]);
        } else {
            assert(all2[x] == b[x - (n1 - k1 * s)]);
        }
    }
    let (h1, q1) = spec_frame(pending, size, a);
    let (h2, q2) = spec_frame(p1, size, b);
    assert(q1 == p1);
    let (h, q) = spec_frame(pending, size, a + b);
    assert(h.len() == h1.len() + h2.len());
    assert forall|i: int| 0 <= i < h.len() implies #[trigger] h[i] == (h1 + h2)[i] by {
        if i < k1 {
            assert((i + 1) * s <= k1 * s) by (nonlinear_arith)
                requires
                    i + 1 <= k1,
                    0 < s,
            ;
            assert(0 <= i * s) by (nonlinear_arith)
                requires
                    0 <= i,
                    0 < s,
            ;
            assert((i + 1) * s == i * s + s) by (nonlinear_arith);
            assert(hop_of(all, size, i) =~= hop_of(all1, size, i));
        } else {
            let j = i - k1;
            assert(i * s == k1 * s + j * s) by (nonlinear_arith)
                requires
                    i == k1 + j,
            ;
            assert((j + 1) * s <= k2 * s) by (nonlinear_arith)
                requires
                    j + 1 <= k2,
                    0 < s,
            ;
            assert(0 <= j * s) by (nonlinear_arith)
                requires
                    0 <= j,
                    0 < s,
            ;
            assert((j + 1) * s == j * s + s) by (nonlinear_arith);
            assert((i + 1) * s == i * s + s) by (nonlinear_arith);
            assert forall|x: int| 0 <= x < s implies #[trigger] hop_of(all, size, i)[x] == hop_of(all2, size, j)[x] by {
                assert(all[k1 * s + (j * s + x)] == all2[j * s + x]);
            }
            assert(hop_of(all, size, i) =~= hop_of(all2, size, j));
        }
    }
    assert(h =~= h1 + h2);
    assert(k * s == k1 * s + k2 * s) by (nonlinear_arith)
        requires
            k == k1 + k2,
    ;
    assert forall|x: int| 0 <= x < n - k * s implies #[trigger] q[x] == q2[x] by {
        assert(all[k1 * s + (k2 * s + x)] == all2[k2 * s + x]);
    }
    assert(q =~= q2);
}

} // verus!
