//! Fixed-capacity history of raw samples, addressed by absolute `SampleIndex`,
//! so a burst detected a few milliseconds after it ended can still be cut out.

use crate::units::SampleIndex;
use vstd::prelude::*;

verus! {

pub struct SampleRing<T> {
    buf: Vec<T>,
    /// Absolute index of the next sample to be written.
    next: SampleIndex,
    /// Number of valid samples (≤ capacity), for the startup phase.
    filled: usize,
}

/// Distinct indices less than `cap` apart land in distinct slots.
proof fn lemma_slots_distinct(i: int, j: int, cap: int)
    requires
        cap > 0,
        j < i < j + cap,
    ensures
        i % cap != j % cap,
{
    vstd::arithmetic::div_mod::lemma_fundamental_div_mod(i, cap);
    vstd::arithmetic::div_mod::lemma_fundamental_div_mod(j, cap);
    let qi = i / cap;
    let qj = j / cap;
    if i % cap == j % cap {
        assert(i - j == cap * (qi - qj)) by (nonlinear_arith)
            requires i == cap * qi + i % cap, j == cap * qj + j % cap, i % cap == j % cap;
        if qi - qj >= 1 {
            assert(cap * (qi - qj) >= cap) by (nonlinear_arith)
                requires qi - qj >= 1, cap > 0;
        } else {
            assert(cap * (qi - qj) <= 0) by (nonlinear_arith)
                requires qi - qj <= 0, cap > 0;
        }
    }
}

impl<T: Copy> SampleRing<T> {
    /// Internal consistency: at least one slot, at most `capacity` valid
    /// samples, and the oldest valid index is not before the stream start.
    pub closed spec fn wf(&self) -> bool {
        &&& self.buf@.len() >= 1
        &&& self.filled <= self.buf@.len()
        &&& self.filled <= self.next.0
    }

    pub closed spec fn spec_capacity(&self) -> nat {
        self.buf@.len()
    }

    pub closed spec fn spec_next(&self) -> int {
        self.next.0 as int
    }

    pub closed spec fn spec_oldest(&self) -> int {
        self.next.0 - self.filled
    }

    /// The sample stored for absolute index `i` (meaningful for
    /// `spec_oldest() <= i < spec_next()`).
    pub closed spec fn sample(&self, i: int) -> T {
        self.buf@[i % (self.buf@.len() as int)]
    }

    /// An empty history of `max(capacity, 1)` samples whose first sample will
    /// be `first_index`; `zero` fills the unused slots.
    pub fn new(capacity: usize, first_index: SampleIndex, zero: T) -> (r: Self)
        ensures
            r.wf(),
            r.spec_capacity() == if capacity > 1 { capacity as nat } else { 1 },
            r.spec_next() == first_index.0,
            r.spec_oldest() == first_index.0,
    {
        let cap = if capacity > 1 { capacity } else { 1 };
        let mut buf: Vec<T> = Vec::new();
        let mut i: usize = 0;
        while i < cap
            invariant
                i <= cap,
                buf@.len() == i,
            decreases cap - i,
        {
            buf.push(zero);
            i = i + 1;
        }
        SampleRing { buf, next: first_index, filled: 0 }
    }

    pub fn capacity(&self) -> (r: usize)
        requires
            self.wf(),
        ensures
            r == self.spec_capacity(),
    {
        self.buf.len()
    }

    /// Absolute index of the next sample that will be written.
    pub fn next_index(&self) -> (r: SampleIndex)
        ensures
            r.0 == self.spec_next(),
    {
        self.next
    }

    /// Oldest index still available.
    pub fn oldest_index(&self) -> (r: SampleIndex)
        requires
            self.wf(),
        ensures
            r.0 == self.spec_oldest(),
    {
        SampleIndex(self.next.0 - self.filled as u64)
    }

    /// Append a block; it follows what was pushed before. Afterwards the
    /// newest `min(filled + len, capacity)` samples are held: the block's
    /// own, and before them the newest earlier ones.
    pub fn push(&mut self, block: &[T])
        requires
            old(self).wf(),
            old(self).spec_next() + block@.len() <= u64::MAX,
        ensures
            final(self).wf(),
            final(self).spec_capacity() == old(self).spec_capacity(),
            final(self).spec_next() == old(self).spec_next() + block@.len(),
            final(self).spec_next() - final(self).spec_oldest() == (if old(self).spec_next() - old(self).spec_oldest() + block@.len() < old(self).spec_capacity() {
                old(self).spec_next() - old(self).spec_oldest() + block@.len()
            } else {
                old(self).spec_capacity() as int
            }),
            forall|i: int| final(self).spec_oldest() <= i < final(self).spec_next() ==> #[trigger] final(self).sample(i) == (
                if i >= old(self).spec_next() { block@[i - old(self).spec_next()] } else { old(self).sample(i) }),
    {
        let cap = self.buf.len();
        let ghost start = self.next.0 as int;
        let ghost old_oldest = self.next.0 - self.filled;
        let ghost old_ring = *self;
        let ghost c = cap as int;
        let mut k: usize = 0;
        while k < block.len()
            invariant
                k <= block.len(),
                self.buf@.len() == cap,
                c == cap as int,
                cap >= 1,
                self.filled == old_ring.filled,
                self.next.0 == start + k,
                start + block@.len() <= u64::MAX,
                old_ring.buf@.len() == cap,
                forall|i: int| old_oldest <= i < start + k && start + k - c <= i ==> #[trigger] self.buf@[i % c] == (
                    if i >= start { block@[i - start] } else { old_ring.buf@[i % c] }),
            decreases block.len() - k,
        {
            let slot = (self.next.0 % (cap as u64)) as usize;
            let ghost cur = self.next.0 as int;
            let ghost before = self.buf@;
            self.buf.set(slot, block[k]);
            proof {
                assert forall|i: int| old_oldest <= i < cur + 1 && cur + 1 - c <= i implies #[trigger] self.buf@[i % c] == (
                    if i >= start { block@[i - start] } else { old_ring.buf@[i % c] }) by {
                    if i < cur {
                        lemma_slots_distinct(cur, i, c);
                        assert(self.buf@[i % c] == before[i % c]);
                    }
                }
            }
            self.next.0 = self.next.0 + 1;
            k = k + 1;
        }
        self.filled = if block.len() < cap - self.filled { self.filled + block.len() } else { cap };
        proof {
            assert forall|i: int| self.next.0 - self.filled <= i < self.next.0 implies #[trigger] self.sample(i) == (
                if i >= start { block@[i - start] } else { old_ring.sample(i) }) by {
                assert(self.sample(i) == self.buf@[i % c]);
            }
        }
    }

    /// Copy out `[start, end)` if the whole range is still available.
    pub fn get(&self, start: SampleIndex, end: SampleIndex) -> (r: Option<Vec<T>>)
        requires
            self.wf(),
        ensures
            match r {
                Some(v) => {
                    &&& start.0 < end.0
                    &&& self.spec_oldest() <= start.0
                    &&& end.0 <= self.spec_next()
                    &&& v@ == Seq::new((end.0 - start.0) as nat, |k: int| self.sample(start.0 + k))
                },
                None => end.0 <= start.0 || start.0 < self.spec_oldest() || end.0 > self.spec_next(),
            },
    {
        if end.0 <= start.0 || start.0 < self.next.0 - self.filled as u64 || end.0 > self.next.0 {
            return None;
        }
        let cap = self.buf.len();
        let mut out: Vec<T> = Vec::new();
        let mut i: u64 = start.0;
        while i < end.0
            invariant
                start.0 <= i <= end.0,
                cap == self.buf@.len(),
                cap >= 1,
                out@.len() == i - start.0,
                forall|k: int| 0 <= k < out@.len() ==> out@[k] == self.sample(start.0 + k),
            decreases end.0 - i,
        {
            out.push(self.buf[(i % (cap as u64)) as usize]);
            i = i + 1;
        }
        assert(out@ =~= Seq::new((end.0 - start.0) as nat, |k: int| self.sample(start.0 + k)));
        Some(out)
    }
}

// ---------------------------------------------------------------------------
// Laws

/// What a read returns right after a push: a range that lies in the pushed
/// block and is still held reads back exactly that part of the block (the
/// sequence `get` returns for it).
pub proof fn lemma_push_then_read<T: Copy>(before: SampleRing<T>, after: SampleRing<T>, block: Seq<T>, s: int, e: int)
    requires
        before.wf(),
        after.wf(),
        after.spec_next() == before.spec_next() + block.len(),
        forall|j: int| after.spec_oldest() <= j < after.spec_next() ==> #[trigger] after.sample(j) == (
            if j >= before.spec_next() { block[j - before.spec_next()] } else { before.sample(j) }),
        before.spec_next() <= s < e <= after.spec_next(),
        after.spec_oldest() <= s,
    ensures
        Seq::new((e - s) as nat, |k: int| after.sample(s + k))
            == block.subrange(s - before.spec_next(), e - before.spec_next()),
{
    let n0 = before.spec_next();
    assert forall|k: int| 0 <= k < e - s implies #[trigger] after.sample(s + k) == block.subrange(s - n0, e - n0)[k] by {
        assert(after.sample(s + k) == block[s + k - n0]);
    }
    assert(Seq::new((e - s) as nat, |k: int| after.sample(s + k)) =~= block.subrange(s - n0, e - n0));
}

} // verus!
