//! Retention of undecoded-burst examples ("chirps"). Each emitter group keeps
//! its newest examples, the groups of one emitter family share a budget of
//! examples, and a global byte cap evicts the oldest examples overall. The
//! store itself is the application's database; which rows go is decided here.
//!
//! A stored example is seen as `(id, bytes)`: its row id, which grows with
//! insertion order, and the size of its IQ capture.

use vstd::prelude::*;

verus! {

/// Sighting times a group keeps for its cadence estimate.
pub const RECENT_SIGHTINGS: usize = 8;

/// The sighting times after recording `t`: appended, and the oldest dropped
/// once more than `RECENT_SIGHTINGS` are held.
pub open spec fn spec_push_recent<T>(times: Seq<T>, t: T) -> Seq<T> {
    let s = times.push(t);
    if s.len() > RECENT_SIGHTINGS { s.drop_first() } else { s }
}

/// Record a sighting time, keeping the newest `RECENT_SIGHTINGS`.
pub fn push_recent<T>(times: &mut Vec<T>, t: T)
    ensures
        final(times)@ == spec_push_recent(old(times)@, t),
{
    times.push(t);
    if times.len() > RECENT_SIGHTINGS {
        let ghost s = times@;
        times.remove(0);
        assert(times@ =~= s.drop_first());
    }
}

/// Total size of the examples `rows`.
pub open spec fn bytes_of(rows: Seq<(i64, i64)>) -> int
    decreases rows.len(),
{
    if rows.len() == 0 {
        0
    } else {
        bytes_of(rows.drop_last()) + rows.last().1
    }
}

/// No example has a negative size.
pub open spec fn sizes_nonneg(rows: Seq<(i64, i64)>) -> bool {
    forall|i: int| 0 <= i < rows.len() ==> rows[i].1 >= 0
}

pub open spec fn ids_of(rows: Seq<(i64, i64)>) -> Seq<i64> {
    Seq::new(rows.len(), |i: int| rows[i].0)
}

/// How many of `len` rows a cap of `keep` keeps (a cap below 1 keeps none).
pub open spec fn kept_count(len: nat, keep: i64) -> int {
    if keep <= 0 {
        0
    } else if keep >= len {
        len as int
    } else {
        keep as int
    }
}

proof fn lemma_bytes_take_step(s: Seq<(i64, i64)>, i: int)
    requires
        0 <= i < s.len(),
    ensures
        bytes_of(s.take(i + 1)) == bytes_of(s.take(i)) + s[i].1,
{
    assert(s.take(i + 1).drop_last() =~= s.take(i));
}

proof fn lemma_bytes_take_nonneg(s: Seq<(i64, i64)>, i: int)
    requires
        sizes_nonneg(s),
        0 <= i <= s.len(),
    ensures
        0 <= bytes_of(s.take(i)),
    decreases i,
{
    if i == 0 {
        assert(s.take(0) =~= Seq::<(i64, i64)>::empty());
    } else {
        lemma_bytes_take_nonneg(s, i - 1);
        lemma_bytes_take_step(s, i - 1);
    }
}

proof fn lemma_bytes_take_mono(s: Seq<(i64, i64)>, i: int, j: int)
    requires
        sizes_nonneg(s),
        0 <= i <= j <= s.len(),
    ensures
        0 <= bytes_of(s.take(i)) <= bytes_of(s.take(j)),
    decreases j - i,
{
    lemma_bytes_take_nonneg(s, i);
    if i < j {
        lemma_bytes_take_mono(s, i, j - 1);
        lemma_bytes_take_step(s, j - 1);
    }
}

/// The examples of one group (or family) beyond its newest `keep`, given
/// newest first: their ids, oldest last, and the bytes deleting them frees.
pub fn beyond_newest(newest_first: &[(i64, i64)], keep: i64) -> (r: (Vec<i64>, i64))
    requires
        sizes_nonneg(newest_first@),
        bytes_of(newest_first@) <= i64::MAX,
    ensures
        ({
            let rows = newest_first@;
            let k = kept_count(rows.len(), keep);
            &&& r.0@ == ids_of(rows.skip(k))
            &&& r.1 == bytes_of(rows) - bytes_of(rows.take(k))
        }),
{
    let ghost rows = newest_first@;
    let len = newest_first.len();
    let k: usize = if keep <= 0 {
        0
    } else if keep as u64 >= len as u64 {
        len
    } else {
        keep as usize
    };
    assert(k == kept_count(rows.len(), keep));
    let mut ids: Vec<i64> = Vec::new();
    let mut freed: i64 = 0;
    let mut i: usize = k;
    proof {
        lemma_bytes_take_mono(rows, k as int, len as int);
        assert(rows.take(len as int) =~= rows);
    }
    while i < len
        invariant
            k <= i <= len,
            len == rows.len(),
            rows == newest_first@,
            sizes_nonneg(rows),
            bytes_of(rows) <= i64::MAX,
            ids@ == ids_of(rows.subrange(k as int, i as int)),
            freed == bytes_of(rows.take(i as int)) - bytes_of(rows.take(k as int)),
        decreases len - i,
    {
        proof {
            lemma_bytes_take_step(rows, i as int);
            lemma_bytes_take_mono(rows, k as int, i as int);
            lemma_bytes_take_mono(rows, i + 1, len as int);
            assert(rows.take(len as int) =~= rows);
        }
        ids.push(newest_first[i].0);
        freed = freed + newest_first[i].1;
        i = i + 1;
        assert(ids@ =~= ids_of(rows.subrange(k as int, i as int)));
    }
    assert(rows.subrange(k as int, len as int) =~= rows.skip(k as int));
    assert(rows.take(len as int) =~= rows);
    (ids, freed)
}

/// How many of the oldest examples the global cap evicts: the fewest whose
/// removal brings `total` down to `max_bytes`, or all of them if even that
/// is not enough.
pub open spec fn evict_count(total: int, max_bytes: int, oldest_first: Seq<(i64, i64)>) -> int {
    if exists|k: int| 0 <= k <= oldest_first.len() && total - bytes_of(#[trigger] oldest_first.take(k)) <= max_bytes {
        choose|k: int|
            0 <= k <= oldest_first.len() && total - bytes_of(#[trigger] oldest_first.take(k)) <= max_bytes && forall|j: int|
                0 <= j < k ==> total - bytes_of(#[trigger] oldest_first.take(j)) > max_bytes
    } else {
        oldest_first.len() as int
    }
}

/// The global cap: while the stored total exceeds `max_bytes`, the oldest
/// remaining example is evicted. Returns the evicted ids, oldest first, and
/// the total afterwards; it is within the cap unless every example went.
pub fn evict_for_cap(total_bytes: i64, max_bytes: i64, oldest_first: &[(i64, i64)]) -> (r: (Vec<i64>, i64))
    requires
        sizes_nonneg(oldest_first@),
        total_bytes - bytes_of(oldest_first@) >= i64::MIN,
    ensures
        ({
            let rows = oldest_first@;
            let k = evict_count(total_bytes as int, max_bytes as int, rows);
            &&& 0 <= k <= rows.len()
            &&& r.0@ == ids_of(rows.take(k))
            &&& r.1 == total_bytes - bytes_of(rows.take(k))
            &&& r.1 <= max_bytes || k == rows.len()
            &&& forall|j: int| 0 <= j < k ==> total_bytes - bytes_of(#[trigger] rows.take(j)) > max_bytes
        }),
{
    let ghost rows = oldest_first@;
    let len = oldest_first.len();
    let mut ids: Vec<i64> = Vec::new();
    let mut total = total_bytes;
    let mut i: usize = 0;
    proof {
        assert(rows.take(0) =~= Seq::<(i64, i64)>::empty());
        assert(rows.take(len as int) =~= rows);
    }
    while i < len && total > max_bytes
        invariant
            i <= len,
            len == rows.len(),
            rows == oldest_first@,
            sizes_nonneg(rows),
            total_bytes - bytes_of(rows) >= i64::MIN,
            rows.take(len as int) == rows,
            ids@ == ids_of(rows.take(i as int)),
            total == total_bytes - bytes_of(rows.take(i as int)),
            forall|j: int| 0 <= j < i ==> total_bytes - bytes_of(#[trigger] rows.take(j)) > max_bytes,
        decreases len - i,
    {
        proof {
            lemma_bytes_take_step(rows, i as int);
            lemma_bytes_take_mono(rows, i + 1, len as int);
        }
        ids.push(oldest_first[i].0);
        total = total - oldest_first[i].1;
        i = i + 1;
        assert(ids@ =~= ids_of(rows.take(i as int)));
    }
    proof {
        let t = total_bytes as int;
        let m = max_bytes as int;
        if total <= max_bytes {
            assert(t - bytes_of(rows.take(i as int)) <= m);
            assert(0 <= i <= rows.len() && t - bytes_of(rows.take(i as int)) <= m && forall|j: int|
                0 <= j < i ==> t - bytes_of(#[trigger] rows.take(j)) > m);
            let c = choose|k: int|
                0 <= k <= rows.len() && t - bytes_of(#[trigger] rows.take(k)) <= m && forall|j: int|
                    0 <= j < k ==> t - bytes_of(#[trigger] rows.take(j)) > m;
            assert(c == i) by {
                if c < i {
                    assert(t - bytes_of(rows.take(c)) > m);
                } else if c > i {
                    assert(t - bytes_of(rows.take(i as int)) > m);
                }
            }
        } else {
            assert(i == len);
            assert forall|k: int| 0 <= k <= rows.len() implies !(t - bytes_of(#[trigger] rows.take(k)) <= m) by {
                if k == len {
                    assert(rows.take(k) == rows.take(len as int));
                }
            }
        }
    }
    (ids, total)
}

} // verus!
