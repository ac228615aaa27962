//! Cross-receiver merging: the same transmission decoded by several receivers
//! becomes one `Event` listing every receiver's signal measurement.

use crate::event::{lemma_name_order, name_lt, Event, Payload, ReceiverEvent, ReceiverId, Reception};
use crate::protocol::bytes_eq;
use vstd::prelude::*;

verus! {

/// Who heard a transmission: receiver name and its signal measurement.
pub type HeardView<S> = Seq<(Seq<char>, S)>;

/// A transmission waiting for its window to close: time of the first copy,
/// the sensor reading, the raw bytes, and everyone who heard it.
pub type PendingView<S> = (i128, Payload, Seq<u8>, HeardView<S>);

pub open spec fn heard_view<S>(h: Seq<(ReceiverId, S)>) -> HeardView<S> {
    Seq::new(h.len(), |i: int| (h[i].0@, h[i].1))
}

/// The receivers are listed in receiver order (`name_lt`), so none twice.
pub open spec fn receivers_in_order<S>(h: HeardView<S>) -> bool {
    forall|i: int, j: int| 0 <= i < j < h.len() ==> name_lt(#[trigger] h[i].0, #[trigger] h[j].0)
}

/// Where receiver `r` goes among `h`: before the first receiver that does
/// not come before it.
pub open spec fn insert_pos<S>(h: HeardView<S>, r: Seq<char>) -> int
    decreases h.len(),
{
    if h.len() == 0 || !name_lt(h[0].0, r) {
        0
    } else {
        1 + insert_pos(h.drop_first(), r)
    }
}

/// Record that receiver `r` heard the transmission with signal `s`: a
/// receiver already listed gets its signal replaced, a new one takes its
/// place in receiver order.
pub open spec fn heard_insert<S>(h: HeardView<S>, r: Seq<char>, s: S) -> HeardView<S> {
    if exists|i: int| 0 <= i < h.len() && #[trigger] h[i].0 == r {
        let i = choose|i: int| 0 <= i < h.len() && #[trigger] h[i].0 == r;
        h.update(i, (r, s))
    } else {
        h.insert(insert_pos(h, r), (r, s))
    }
}

/// `insert_pos` is the first position whose receiver does not come before `r`.
proof fn lemma_insert_pos<S>(h: HeardView<S>, r: Seq<char>, j: int)
    requires
        0 <= j <= h.len(),
        forall|i: int| 0 <= i < j ==> name_lt(#[trigger] h[i].0, r),
        j == h.len() || !name_lt(h[j].0, r),
    ensures
        insert_pos(h, r) == j,
    decreases j,
{
    if j > 0 {
        let d = h.drop_first();
        assert(name_lt(h[0].0, r));
        assert forall|i: int| 0 <= i < j - 1 implies name_lt(#[trigger] d[i].0, r) by {
            assert(d[i] == h[i + 1]);
        }
        if j < h.len() {
            assert(d[j - 1] == h[j]);
        }
        lemma_insert_pos(d, r, j - 1);
    }
}

/// The copy `ev` (time `t`, bytes `raw`) belongs to pending transmission `p`:
/// same bytes, and at most `window` after its first copy.
pub open spec fn joins<S>(p: PendingView<S>, raw: Seq<u8>, t: i128, window: i128) -> bool {
    p.2 == raw && t - p.0 <= window
}

/// Index of the first pending transmission that a copy joins, or -1.
pub open spec fn first_join<S>(ps: Seq<PendingView<S>>, raw: Seq<u8>, t: i128, window: i128) -> int
    decreases ps.len(),
{
    if ps.len() == 0 {
        -1
    } else {
        let k = first_join(ps.drop_last(), raw, t, window);
        if k >= 0 {
            k
        } else if joins(ps.last(), raw, t, window) {
            ps.len() - 1
        } else {
            -1
        }
    }
}

/// The pending list after accepting one copy: it joins the first pending
/// transmission it belongs to, or starts a new one.
pub open spec fn after_accept<S>(
    ps: Seq<PendingView<S>>,
    r: Seq<char>,
    t: i128,
    s: S,
    sensor: Payload,
    raw: Seq<u8>,
    window: i128,
) -> Seq<PendingView<S>> {
    let k = first_join(ps, raw, t, window);
    if k >= 0 {
        ps.update(k, (ps[k].0, ps[k].1, ps[k].2, heard_insert(ps[k].3, r, s)))
    } else {
        ps.push((t, sensor, raw, seq![(r, s)]))
    }
}

/// A pending transmission's window has closed at `now`.
pub open spec fn closed<S>(p: PendingView<S>, now: i128, window: i128) -> bool {
    now - p.0 > window
}

/// The transmissions whose window has closed at `now`, in order.
pub open spec fn closed_part<S>(ps: Seq<PendingView<S>>, now: i128, window: i128) -> Seq<PendingView<S>>
    decreases ps.len(),
{
    if ps.len() == 0 {
        Seq::<PendingView<S>>::empty()
    } else {
        let prev = closed_part(ps.drop_last(), now, window);
        if closed(ps.last(), now, window) { prev.push(ps.last()) } else { prev }
    }
}

/// The transmissions still open at `now`, in order.
pub open spec fn open_part<S>(ps: Seq<PendingView<S>>, now: i128, window: i128) -> Seq<PendingView<S>>
    decreases ps.len(),
{
    if ps.len() == 0 {
        Seq::<PendingView<S>>::empty()
    } else {
        let prev = open_part(ps.drop_last(), now, window);
        if closed(ps.last(), now, window) { prev } else { prev.push(ps.last()) }
    }
}

/// An emitted event as values: reception time, who heard it, reading, bytes.
pub open spec fn event_view<S>(e: Event<S>) -> PendingView<S> {
    (e.reception.time_ns, e.sensor, e.raw@, heard_view(e.reception.heard_by@))
}

pub open spec fn event_views<S>(es: Seq<Event<S>>) -> Seq<PendingView<S>> {
    Seq::new(es.len(), |i: int| event_view(es[i]))
}

struct Pending<S> {
    time_ns: i128,
    sensor: Payload,
    raw: Vec<u8>,
    heard_by: Vec<(ReceiverId, S)>,
}

impl<S> Pending<S> {
    spec fn view(&self) -> PendingView<S> {
        (self.time_ns, self.sensor, self.raw@, heard_view(self.heard_by@))
    }
}

spec fn pending_views<S>(v: Seq<Pending<S>>) -> Seq<PendingView<S>> {
    Seq::new(v.len(), |i: int| v[i]@)
}

/// `a - b <= w`, computed without overflow.
fn diff_le(a: i128, b: i128, w: i128) -> (r: bool)
    ensures
        r == (a - b <= w),
{
    if b >= 0 {
        if a >= i128::MIN + b {
            a - b <= w
        } else {
            true
        }
    } else {
        if a <= i128::MAX + b {
            a - b <= w
        } else {
            false
        }
    }
}

/// Holds each transmission for `window` after its first copy, collecting
/// other receivers' copies (matched by identical raw bytes), then emits.
pub struct Merger<S> {
    window_ns: i128,
    pending: Vec<Pending<S>>,
}

impl<S> Merger<S> {
    /// The merge window in nanoseconds.
    pub closed spec fn window(&self) -> i128 {
        self.window_ns
    }

    /// The transmissions waiting for their window to close, oldest first.
    pub closed spec fn pending(&self) -> Seq<PendingView<S>> {
        pending_views(self.pending@)
    }

    /// Every pending transmission lists each receiver once.
    pub open spec fn wf(&self) -> bool {
        forall|i: int| 0 <= i < self.pending().len() ==> receivers_in_order(#[trigger] self.pending()[i].3)
    }

    pub fn new(window_ns: i128) -> (r: Self)
        ensures
            r.wf(),
            r.window() == window_ns,
            r.pending() == Seq::<PendingView<S>>::empty(),
    {
        let r = Merger { window_ns, pending: Vec::new() };
        assert(r.pending() =~= Seq::<PendingView<S>>::empty());
        r
    }

    /// Accept one receiver's decode; returns any events whose window has
    /// closed as of `now`.
    pub fn push(&mut self, ev: ReceiverEvent<S>, now_ns: i128) -> (r: Vec<Event<S>>)
        requires
            old(self).wf(),
        ensures
            final(self).wf(),
            final(self).window() == old(self).window(),
            ({
                let ps = after_accept(old(self).pending(), ev.receiver@, ev.time_ns, ev.signal, ev.sensor, ev.raw@, old(self).window());
                &&& event_views(r@) == closed_part(ps, now_ns, old(self).window())
                &&& final(self).pending() == open_part(ps, now_ns, old(self).window())
            }),
    {
        self.accept(ev);
        self.flush(now_ns)
    }

    fn accept(&mut self, ev: ReceiverEvent<S>)
        requires
            old(self).wf(),
        ensures
            final(self).wf(),
            final(self).window() == old(self).window(),
            final(self).pending() == after_accept(old(self).pending(), ev.receiver@, ev.time_ns, ev.signal, ev.sensor, ev.raw@, old(self).window()),
    {
        let ghost ps = self.pending();
        let ghost w = self.window_ns;
        let ghost r = ev.receiver@;
        let ghost t = ev.time_ns;
        let ghost s = ev.signal;
        let ghost raw = ev.raw@;
        let mut k: usize = 0;
        let mut found = false;
        while k < self.pending.len() && !found
            invariant
                k <= self.pending@.len(),
                self.pending() == ps,
                forall|i: int| 0 <= i < ps.len() ==> receivers_in_order(#[trigger] ps[i].3),
                self.window_ns == w,
                ev.time_ns == t,
                ev.raw@ == raw,
                !found ==> first_join(ps.take(k as int), raw, t, w) == -1,
                found ==> k < ps.len() && first_join(ps, raw, t, w) == k,
            decreases self.pending@.len() - k + (if found { 0int } else { 1int }),
        {
            proof {
                assert(ps.take(k + 1).drop_last() =~= ps.take(k as int));
                assert(ps.take(k + 1).last() == ps[k as int]);
                assert(ps[k as int] == self.pending@[k as int]@);
            }
            if bytes_eq(self.pending[k].raw.as_slice(), ev.raw.as_slice()) && diff_le(ev.time_ns, self.pending[k].time_ns, self.window_ns) {
                found = true;
                proof {
                    lemma_first_join_prefix(ps, raw, t, w, k as int);
                }
            } else {
                k = k + 1;
            }
        }
        let ReceiverEvent { receiver, time_ns, signal, sensor, raw: ev_raw } = ev;
        if found {
            let mut p = self.pending.remove(k);
            let ghost pv = p@;
            assert(pv == ps[k as int]);
            assert(receivers_in_order(ps[k as int].3));
            heard_add(&mut p.heard_by, receiver, signal);
            self.pending.insert(k, p);
            proof {
                assert(self.pending() =~= ps.update(k as int, (pv.0, pv.1, pv.2, heard_insert(pv.3, r, s))));
                assert forall|i: int| 0 <= i < self.pending().len() implies receivers_in_order(#[trigger] self.pending()[i].3) by {
                    if i != k {
                        assert(self.pending()[i] == ps[i]);
                    }
                }
            }
        } else {
            proof {
                assert(ps.take(k as int) =~= ps);
            }
            let mut heard_by: Vec<(ReceiverId, S)> = Vec::new();
            heard_by.push((receiver, signal));
            let ghost before = self.pending();
            self.pending.push(Pending { time_ns, sensor, raw: ev_raw, heard_by });
            proof {
                assert(heard_view(self.pending@.last().heard_by@) =~= seq![(r, s)]);
                assert(self.pending() =~= ps.push((t, sensor, raw, seq![(r, s)])));
                assert forall|i: int| 0 <= i < self.pending().len() implies receivers_in_order(#[trigger] self.pending()[i].3) by {
                    if i < ps.len() {
                        assert(self.pending()[i] == ps[i]);
                    }
                }
            }
        }
    }

    /// Emit everything whose window has closed as of `now`.
    pub fn flush(&mut self, now_ns: i128) -> (r: Vec<Event<S>>)
        requires
            old(self).wf(),
        ensures
            final(self).wf(),
            final(self).window() == old(self).window(),
            event_views(r@) == closed_part(old(self).pending(), now_ns, old(self).window()),
            final(self).pending() == open_part(old(self).pending(), now_ns, old(self).window()),
    {
        let ghost ps = self.pending();
        let w = self.window_ns;
        let mut rest: Vec<Pending<S>> = Vec::new();
        std::mem::swap(&mut rest, &mut self.pending);
        let mut done: Vec<Event<S>> = Vec::new();
        let mut keep: Vec<Pending<S>> = Vec::new();
        let ghost mut n: int = 0;
        assert(ps.take(0) =~= Seq::<PendingView<S>>::empty());
        assert(event_views(done@) =~= Seq::<PendingView<S>>::empty());
        assert(pending_views(keep@) =~= Seq::<PendingView<S>>::empty());
        while rest.len() > 0
            invariant
                0 <= n <= ps.len(),
                pending_views(rest@) == ps.subrange(n, ps.len() as int),
                event_views(done@) == closed_part(ps.take(n), now_ns, w),
                pending_views(keep@) == open_part(ps.take(n), now_ns, w),
                forall|i: int| 0 <= i < ps.len() ==> receivers_in_order(#[trigger] ps[i].3),
            decreases rest@.len(),
        {
            let ghost r0 = rest@;
            assert(pending_views(r0).len() == r0.len());
            assert(n < ps.len());
            assert(pending_views(r0)[0] == r0[0]@);
            assert(ps.subrange(n, ps.len() as int)[0] == ps[n]);
            let p = rest.remove(0);
            let ghost pv = p@;
            assert(pv == ps[n]);
            proof {
                assert(ps.take(n + 1).drop_last() =~= ps.take(n));
                assert(ps.take(n + 1).last() == ps[n]);
            }
            if !diff_le(now_ns, p.time_ns, w) {
                let ghost before = event_views(done@);
                let Pending { time_ns, sensor, raw, heard_by } = p;
                done.push(Event { reception: Reception { time_ns, heard_by }, sensor, raw });
                assert(event_views(done@) =~= before.push(pv));
            } else {
                let ghost before = pending_views(keep@);
                keep.push(p);
                assert(pending_views(keep@) =~= before.push(pv));
            }
            proof {
                n = n + 1;
                assert forall|i: int| 0 <= i < rest@.len() implies #[trigger] rest@[i]@ == ps.subrange(n, ps.len() as int)[i] by {
                    assert(rest@[i] == r0[i + 1]);
                    assert(pending_views(r0)[i + 1] == r0[i + 1]@);
                }
                assert(pending_views(rest@) =~= ps.subrange(n, ps.len() as int));
            }
        }
        proof {
            assert(ps.take(n) =~= ps);
            lemma_open_part_subset(ps, now_ns, w);
        }
        self.pending = keep;
        proof {
            assert(self.pending() =~= open_part(ps, now_ns, w));
        }
        done
    }

    /// Emit everything regardless of window (shutdown).
    pub fn drain(&mut self) -> (r: Vec<Event<S>>)
        requires
            old(self).wf(),
        ensures
            final(self).wf(),
            final(self).window() == old(self).window(),
            event_views(r@) == old(self).pending(),
            final(self).pending() == Seq::<PendingView<S>>::empty(),
    {
        let ghost ps = self.pending();
        let mut rest: Vec<Pending<S>> = Vec::new();
        std::mem::swap(&mut rest, &mut self.pending);
        let mut done: Vec<Event<S>> = Vec::new();
        let ghost mut n: int = 0;
        assert(event_views(done@) =~= ps.take(0));
        while rest.len() > 0
            invariant
                0 <= n <= ps.len(),
                pending_views(rest@) == ps.subrange(n, ps.len() as int),
                event_views(done@) == ps.take(n),
            decreases rest@.len(),
        {
            let ghost r0 = rest@;
            assert(pending_views(r0).len() == r0.len());
            assert(n < ps.len());
            assert(pending_views(r0)[0] == r0[0]@);
            assert(ps.subrange(n, ps.len() as int)[0] == ps[n]);
            let p = rest.remove(0);
            let ghost pv = p@;
            assert(pv == ps[n]);
            let ghost before = event_views(done@);
            let Pending { time_ns, sensor, raw, heard_by } = p;
            done.push(Event { reception: Reception { time_ns, heard_by }, sensor, raw });
            proof {
                assert(event_views(done@) =~= before.push(pv));
                assert(ps.take(n + 1) =~= ps.take(n).push(ps[n]));
                assert(event_views(done@) =~= ps.take(n + 1));
                n = n + 1;
                assert forall|i: int| 0 <= i < rest@.len() implies #[trigger] rest@[i]@ == ps.subrange(n, ps.len() as int)[i] by {
                    assert(rest@[i] == r0[i + 1]);
                    assert(pending_views(r0)[i + 1] == r0[i + 1]@);
                }
                assert(pending_views(rest@) =~= ps.subrange(n, ps.len() as int));
            }
        }
        assert(ps.take(n) =~= ps);
        assert(self.pending() =~= Seq::<PendingView<S>>::empty());
        done
    }
}

/// Record receiver `receiver` with `signal` in `heard_by` (replacing its
/// earlier signal if it is already listed, else in receiver order).
fn heard_add<S>(heard_by: &mut Vec<(ReceiverId, S)>, receiver: ReceiverId, signal: S)
    requires
        receivers_in_order(heard_view(old(heard_by)@)),
    ensures
        receivers_in_order(heard_view(final(heard_by)@)),
        heard_view(final(heard_by)@) == heard_insert(heard_view(old(heard_by)@), receiver@, signal),
{
    let ghost h = heard_view(heard_by@);
    let ghost r = receiver@;
    let mut j: usize = 0;
    while j < heard_by.len() && heard_by[j].0.precedes(&receiver)
        invariant
            j <= heard_by@.len(),
            h == heard_view(heard_by@),
            h == heard_view(old(heard_by)@),
            receiver@ == r,
            forall|i: int| 0 <= i < j ==> name_lt(#[trigger] h[i].0, r),
        decreases heard_by@.len() - j,
    {
        assert(h[j as int].0 == heard_by@[j as int].0@);
        j = j + 1;
    }
    proof {
        if j < h.len() {
            assert(h[j as int].0 == heard_by@[j as int].0@);
        }
        lemma_insert_pos(h, r, j as int);
    }
    if j < heard_by.len() && heard_by[j].0.0 == receiver.0 {
        proof {
            assert(h[j as int].0 == r);
            let c = choose|i: int| 0 <= i < h.len() && #[trigger] h[i].0 == r;
            assert(c == j) by {
                if c != j {
                    lemma_name_order(r, r, r);
                    if c < j {
                        assert(name_lt(h[c].0, h[j as int].0));
                    } else {
                        assert(name_lt(h[j as int].0, h[c].0));
                    }
                }
            }
        }
        heard_by.set(j, (receiver, signal));
        proof {
            assert(heard_view(heard_by@) =~= h.update(j as int, (r, signal)));
            assert(heard_insert(h, r, signal) == h.update(j as int, (r, signal)));
            assert forall|a: int, b: int| 0 <= a < b < heard_view(heard_by@).len() implies name_lt(
                #[trigger] heard_view(heard_by@)[a].0,
                #[trigger] heard_view(heard_by@)[b].0,
            ) by {
                assert(name_lt(h[a].0, h[b].0));
            }
        }
        return;
    }
    proof {
        // `r` is not listed: it is after everything before `j` and before
        // everything from `j` on
        assert forall|i: int| 0 <= i < h.len() implies #[trigger] h[i].0 != r by {
            lemma_name_order(r, r, r);
            if i > j {
                assert(name_lt(h[j as int].0, h[i].0));
            }
        }
        assert forall|i: int| j <= i < h.len() implies name_lt(r, #[trigger] h[i].0) by {
            lemma_name_order(r, h[j as int].0, h[i].0);
            lemma_name_order(h[j as int].0, r, r);
            if i > j {
                assert(name_lt(h[j as int].0, h[i].0));
            }
        }
    }
    heard_by.insert(j, (receiver, signal));
    proof {
        let nh = heard_view(heard_by@);
        assert(nh =~= h.insert(j as int, (r, signal)));
        assert forall|a: int, b: int| 0 <= a < b < nh.len() implies name_lt(#[trigger] nh[a].0, #[trigger] nh[b].0) by {
            if b < j {
                assert(name_lt(h[a].0, h[b].0));
            } else if b == j {
            } else if a < j {
                assert(name_lt(h[a].0, r));
                assert(name_lt(r, h[b - 1].0));
                lemma_name_order(h[a].0, r, h[b - 1].0);
            } else if a == j {
            } else {
                assert(name_lt(h[a - 1].0, h[b - 1].0));
            }
        }
    }
}

proof fn lemma_first_join_prefix<S>(ps: Seq<PendingView<S>>, raw: Seq<u8>, t: i128, w: i128, k: int)
    requires
        0 <= k < ps.len(),
        first_join(ps.take(k), raw, t, w) == -1,
        joins(ps[k], raw, t, w),
    ensures
        first_join(ps, raw, t, w) == k,
    decreases ps.len(),
{
    if k < ps.len() - 1 {
        let p = ps.drop_last();
        assert(p.take(k) =~= ps.take(k));
        assert(p[k] == ps[k]);
        lemma_first_join_prefix(p, raw, t, w, k);
    } else {
        assert(ps.take(k) =~= ps.drop_last());
    }
}

/// Everything left open comes from the input list.
proof fn lemma_open_part_subset<S>(ps: Seq<PendingView<S>>, now: i128, w: i128)
    ensures
        forall|i: int| 0 <= i < open_part(ps, now, w).len() ==> ps.contains(#[trigger] open_part(ps, now, w)[i]),
    decreases ps.len(),
{
    if ps.len() > 0 {
        let p = ps.drop_last();
        lemma_open_part_subset(p, now, w);
        assert forall|i: int| 0 <= i < open_part(ps, now, w).len() implies ps.contains(#[trigger] open_part(ps, now, w)[i]) by {
            if i < open_part(p, now, w).len() {
                let j = choose|j: int| 0 <= j < p.len() && p[j] == open_part(p, now, w)[i];
                assert(ps[j] == p[j]);
            } else {
                assert(ps[ps.len() - 1] == open_part(ps, now, w)[i]);
            }
        }
    }
}

// ---------------------------------------------------------------------------
// Laws

/// A flush loses and duplicates nothing: the transmissions it emits and
/// those it keeps pending are, together, exactly the ones pending before.
pub proof fn lemma_flush_partitions<S>(ps: Seq<PendingView<S>>, now: i128, window: i128)
    ensures
        closed_part(ps, now, window).len() + open_part(ps, now, window).len() == ps.len(),
        closed_part(ps, now, window).to_multiset().add(open_part(ps, now, window).to_multiset()) =~= ps.to_multiset(),
    decreases ps.len(),
{
    broadcast use vstd::seq_lib::group_to_multiset_ensures, vstd::multiset::group_multiset_axioms;

    if ps.len() > 0 {
        lemma_flush_partitions(ps.drop_last(), now, window);
        assert(ps.drop_last().push(ps.last()) =~= ps);
    } else {
        assert(closed_part(ps, now, window).to_multiset() =~= vstd::multiset::Multiset::empty());
        assert(open_part(ps, now, window).to_multiset() =~= vstd::multiset::Multiset::empty());
        assert(ps.to_multiset() =~= vstd::multiset::Multiset::empty());
    }
}

/// One receiver's copy of a transmission: receiver, time, signal, reading.
pub type CopyView<S> = (Seq<char>, i128, S, Payload);

/// The pending list after accepting `copies` (all with bytes `raw`) in order.
pub open spec fn accept_all<S>(ps: Seq<PendingView<S>>, copies: Seq<CopyView<S>>, raw: Seq<u8>, window: i128) -> Seq<PendingView<S>>
    decreases copies.len(),
{
    if copies.len() == 0 {
        ps
    } else {
        let c = copies.last();
        after_accept(accept_all(ps, copies.drop_last(), raw, window), c.0, c.1, c.2, c.3, raw, window)
    }
}

/// The receivers before `insert_pos(h, r)` come before `r`; the one there,
/// if any, does not.
proof fn lemma_insert_pos_props<S>(h: HeardView<S>, r: Seq<char>)
    ensures
        0 <= insert_pos(h, r) <= h.len(),
        forall|i: int| 0 <= i < insert_pos(h, r) ==> name_lt(#[trigger] h[i].0, r),
        insert_pos(h, r) < h.len() ==> !name_lt(h[insert_pos(h, r)].0, r),
    decreases h.len(),
{
    if h.len() > 0 && name_lt(h[0].0, r) {
        let d = h.drop_first();
        lemma_insert_pos_props(d, r);
        assert forall|i: int| 0 <= i < insert_pos(h, r) implies name_lt(#[trigger] h[i].0, r) by {
            if i > 0 {
                assert(h[i] == d[i - 1]);
            }
        }
    }
}

/// A receiver not yet listed takes its place in receiver order.
proof fn lemma_heard_insert_new<S>(h: HeardView<S>, r: Seq<char>, s: S)
    requires
        receivers_in_order(h),
        forall|i: int| 0 <= i < h.len() ==> h[i].0 != r,
    ensures
        heard_insert(h, r, s) == h.insert(insert_pos(h, r), (r, s)),
        0 <= insert_pos(h, r) <= h.len(),
        receivers_in_order(heard_insert(h, r, s)),
{
    lemma_insert_pos_props(h, r);
    let j = insert_pos(h, r);
    assert forall|i: int| j <= i < h.len() implies name_lt(r, #[trigger] h[i].0) by {
        lemma_name_order(r, h[j].0, h[i].0);
        lemma_name_order(h[j].0, r, r);
        if i > j {
            assert(name_lt(h[j].0, h[i].0));
        }
    }
    let nh = h.insert(j, (r, s));
    assert forall|a: int, b: int| 0 <= a < b < nh.len() implies name_lt(#[trigger] nh[a].0, #[trigger] nh[b].0) by {
        if b < j {
            assert(name_lt(h[a].0, h[b].0));
        } else if b == j {
        } else if a < j {
            assert(name_lt(h[a].0, r));
            assert(name_lt(r, h[b - 1].0));
            lemma_name_order(h[a].0, r, h[b - 1].0);
        } else if a == j {
        } else {
            assert(name_lt(h[a - 1].0, h[b - 1].0));
        }
    }
}

/// Copies of one transmission (identical bytes) from distinct receivers, each
/// no later than the window after the first, become a single transmission:
/// dated by the first copy, with its reading, heard by exactly those
/// receivers with their signals, listed in receiver order.
pub proof fn lemma_copies_merge<S>(copies: Seq<CopyView<S>>, raw: Seq<u8>, window: i128)
    requires
        copies.len() > 0,
        forall|i: int, j: int| 0 <= i < j < copies.len() ==> copies[i].0 != copies[j].0,
        forall|i: int| 0 <= i < copies.len() ==> #[trigger] copies[i].1 - copies[0].1 <= window,
    ensures
        ({
            let res = accept_all(Seq::<PendingView<S>>::empty(), copies, raw, window);
            let heard = res[0].3;
            &&& res.len() == 1
            &&& res[0].0 == copies[0].1
            &&& res[0].1 == copies[0].3
            &&& res[0].2 == raw
            &&& heard.len() == copies.len()
            &&& receivers_in_order(heard)
            &&& forall|i: int| 0 <= i < copies.len() ==> heard.contains((#[trigger] copies[i].0, copies[i].2))
            &&& forall|k: int| 0 <= k < heard.len() ==> exists|i: int|
                0 <= i < copies.len() && #[trigger] heard[k] == (copies[i].0, copies[i].2)
        }),
    decreases copies.len(),
{
    let e = Seq::<PendingView<S>>::empty();
    if copies.len() == 1 {
        assert(copies.drop_last() =~= Seq::<CopyView<S>>::empty());
        assert(accept_all(e, copies.drop_last(), raw, window) == e);
        assert(first_join(e, raw, copies[0].1, window) == -1);
        let res = accept_all(e, copies, raw, window);
        assert(res[0].3 == seq![(copies[0].0, copies[0].2)]);
        assert(res[0].3[0] == (copies[0].0, copies[0].2));
    } else {
        let d = copies.drop_last();
        assert forall|i: int| 0 <= i < d.len() implies #[trigger] d[i].1 - d[0].1 <= window by {
            assert(d[i] == copies[i]);
        }
        lemma_copies_merge(d, raw, window);
        let prev = accept_all(e, d, raw, window);
        let h = prev[0].3;
        let c = copies.last();
        assert(c.1 - copies[0].1 <= window);
        assert(prev.drop_last() =~= e);
        assert(first_join(prev.drop_last(), raw, c.1, window) == -1);
        assert(joins(prev.last(), raw, c.1, window));
        assert(first_join(prev, raw, c.1, window) == 0);
        // every receiver heard so far is one of the earlier copies' receivers
        assert forall|k: int| 0 <= k < h.len() implies h[k].0 != c.0 by {
            let i = choose|i: int| 0 <= i < d.len() && #[trigger] h[k] == (d[i].0, d[i].2);
            assert(d[i] == copies[i]);
        }
        lemma_heard_insert_new(h, c.0, c.2);
        let nh = heard_insert(h, c.0, c.2);
        let p = insert_pos(h, c.0);
        let res = accept_all(e, copies, raw, window);
        assert(res =~= seq![(d[0].1, d[0].3, raw, nh)]);
        assert(nh[p] == (c.0, c.2));
        assert forall|i: int| 0 <= i < copies.len() implies nh.contains((#[trigger] copies[i].0, copies[i].2)) by {
            if i < d.len() {
                assert(d[i] == copies[i]);
                assert(h.contains((d[i].0, d[i].2)));
                let k = choose|k: int| 0 <= k < h.len() && h[k] == (d[i].0, d[i].2);
                if k < p {
                    assert(nh[k] == h[k]);
                } else {
                    assert(nh[k + 1] == h[k]);
                }
            } else {
                assert(nh[p] == (copies[i].0, copies[i].2));
            }
        }
        assert forall|k: int| 0 <= k < nh.len() implies exists|i: int|
            0 <= i < copies.len() && #[trigger] nh[k] == (copies[i].0, copies[i].2) by {
            if k == p {
                assert(nh[k] == (copies[copies.len() - 1].0, copies[copies.len() - 1].2));
            } else {
                let hk = if k < p { k } else { k - 1 };
                assert(nh[k] == h[hk]);
                let i = choose|i: int| 0 <= i < d.len() && #[trigger] h[hk] == (d[i].0, d[i].2);
                assert(d[i] == copies[i]);
            }
        }
    }
}

} // verus!
