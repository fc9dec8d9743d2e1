//! A cache of recently seen event ids: an id is new unless it was recorded within the
//! time-to-live, and the cache never holds more than a fixed number of ids.
//!
//! Times are monotonic clock readings in nanoseconds; the time-to-live is in nanoseconds.

use std::collections::VecDeque;
use vstd::prelude::*;

verus! {

/// One record: when an id was first seen, and the id.
pub type SeenEntry = (u64, Seq<char>);

/// The threshold below which records have expired at time `now`: `now - ttl`, or `now`
/// itself when that subtraction would fall below the clock's origin.
pub open spec fn expire_before(now: u64, ttl: u64) -> u64 {
    if now >= ttl {
        (now - ttl) as u64
    } else {
        now
    }
}

/// Drops the longest prefix of records that are older than `eb`.
pub open spec fn pruned(s: Seq<SeenEntry>, eb: u64) -> Seq<SeenEntry>
    decreases s.len(),
{
    if s.len() > 0 && s[0].0 < eb {
        pruned(s.drop_first(), eb)
    } else {
        s
    }
}

/// Keeps only the newest `max` records.
pub open spec fn capped(s: Seq<SeenEntry>, max: nat) -> Seq<SeenEntry> {
    if s.len() > max {
        s.skip(s.len() - max)
    } else {
        s
    }
}

/// Some record holds the id.
pub open spec fn holds_id(s: Seq<SeenEntry>, id: Seq<char>) -> bool {
    exists|i: int| 0 <= i < s.len() && #[trigger] s[i].1 == id
}

/// No id is recorded twice.
pub open spec fn distinct_ids(s: Seq<SeenEntry>) -> bool {
    forall|i: int, j: int| 0 <= i < j < s.len() ==> #[trigger] s[i].1 != #[trigger] s[j].1
}

/// Records are in the order of their times.
pub open spec fn times_sorted(s: Seq<SeenEntry>) -> bool {
    forall|i: int, j: int| 0 <= i <= j < s.len() ==> #[trigger] s[i].0 <= #[trigger] s[j].0
}

/// What one `add_if_new(id, now)` does to the records `s`: expired records are dropped,
/// then the id is reported new exactly when no remaining record holds it, in which case
/// it is appended and the oldest records beyond `max` are dropped.
pub open spec fn seen_after_add(
    s: Seq<SeenEntry>,
    ttl: u64,
    max: nat,
    id: Seq<char>,
    now: u64,
) -> (Seq<SeenEntry>, bool) {
    let p = pruned(s, expire_before(now, ttl));
    if holds_id(p, id) {
        (p, false)
    } else {
        (capped(p.push((now, id)), max), true)
    }
}

/// The records of recently seen event ids, oldest first.
#[derive(Debug)]
pub struct SeenCache {
    ttl: u64,
    max_entries: usize,
    order: VecDeque<(u64, String)>,
}

/// The records of a deque of (time, id) pairs, ids taken as text.
pub open spec fn entries_of(d: Seq<(u64, String)>) -> Seq<SeenEntry> {
    d.map_values(|e: (u64, String)| (e.0, e.1@))
}

impl SeenCache {
    #[verifier::type_invariant]
    spec fn well_formed(self) -> bool {
        &&& self.order@.len() <= self.max_entries
        &&& distinct_ids(entries_of(self.order@))
    }

    /// The records, oldest first.
    pub closed spec fn entries(&self) -> Seq<SeenEntry> {
        entries_of(self.order@)
    }

    /// The time-to-live in nanoseconds.
    pub closed spec fn ttl(&self) -> u64 {
        self.ttl
    }

    /// The most records the cache holds.
    pub closed spec fn max_entries(&self) -> nat {
        self.max_entries as nat
    }

    /// An empty cache with the given time-to-live (nanoseconds) and capacity.
    pub fn new(ttl: u64, max_entries: usize) -> (c: Self)
        ensures
            c.entries() == Seq::<SeenEntry>::empty(),
            c.ttl() == ttl,
            c.max_entries() == max_entries,
    {
        let c = SeenCache { ttl, max_entries, order: VecDeque::new() };
        assert(c.entries() =~= Seq::<SeenEntry>::empty());
        c
    }

    /// Records `id` as seen at `now` unless a record of it is still alive, and says
    /// whether it was new. Expired records are dropped first; when the cache is over
    /// capacity afterwards, its oldest records are dropped.
    pub fn add_if_new(&mut self, id: &str, now: u64) -> (is_new: bool)
        ensures
            (final(self).entries(), is_new) == seen_after_add(
                old(self).entries(),
                old(self).ttl(),
                old(self).max_entries(),
                id@,
                now,
            ),
            final(self).ttl() == old(self).ttl(),
            final(self).max_entries() == old(self).max_entries(),
            final(self).entries().len() <= final(self).max_entries(),
            distinct_ids(final(self).entries()),
    {
        proof {
            use_type_invariant(&*self);
        }
        let mut order: VecDeque<(u64, String)> = VecDeque::new();
        std::mem::swap(&mut order, &mut self.order);
        let eb = if now >= self.ttl {
            now - self.ttl
        } else {
            now
        };
        prune(&mut order, eb);
        let key = id.to_owned();
        if holds_key(&order, &key) {
            self.order = order;
            return false;
        }
        let ghost before = entries_of(order@);
        order.push_back((now, key));
        proof {
            assert(entries_of(order@) =~= before.push((now, id@)));
        }
        enforce_capacity(&mut order, self.max_entries);
        proof {
            lemma_distinct_capped(before.push((now, id@)), self.max_entries as nat);
        }
        self.order = order;
        true
    }
}

/// Pops records from the front while they are older than `eb`.
fn prune(order: &mut VecDeque<(u64, String)>, eb: u64)
    ensures
        entries_of(final(order)@) == pruned(entries_of(old(order)@), eb),
        final(order)@.len() <= old(order)@.len(),
        distinct_ids(entries_of(old(order)@)) ==> distinct_ids(entries_of(final(order)@)),
{
    loop
        invariant
            pruned(entries_of(order@), eb) == pruned(entries_of(old(order)@), eb),
            order@.len() <= old(order)@.len(),
            distinct_ids(entries_of(old(order)@)) ==> distinct_ids(entries_of(order@)),
        ensures
            pruned(entries_of(order@), eb) == entries_of(order@),
        decreases order@.len(),
    {
        if order.len() == 0 {
            break;
        }
        if order[0].0 >= eb {
            break;
        }
        let ghost prev = order@;
        let _ = order.pop_front();
        proof {
            assert(entries_of(order@) =~= entries_of(prev).drop_first());
        }
    }
}

/// Pops records from the front until at most `max` remain.
fn enforce_capacity(order: &mut VecDeque<(u64, String)>, max: usize)
    ensures
        entries_of(final(order)@) == capped(entries_of(old(order)@), max as nat),
{
    while order.len() > max
        invariant
            capped(entries_of(order@), max as nat) == capped(entries_of(old(order)@), max as nat),
        decreases order@.len(),
    {
        let ghost prev = entries_of(order@);
        let _ = order.pop_front();
        proof {
            assert(entries_of(order@) =~= prev.drop_first());
            assert(capped(prev.drop_first(), max as nat) =~= capped(prev, max as nat));
        }
    }
}

/// Whether some record of `order` holds `key`.
fn holds_key(order: &VecDeque<(u64, String)>, key: &String) -> (b: bool)
    ensures
        b == holds_id(entries_of(order@), key@),
{
    let n = order.len();
    for i in 0..n
        invariant
            n == order@.len(),
            forall|j: int| 0 <= j < i ==> entries_of(order@)[j].1 != key@,
    {
        if order[i].1 == *key {
            assert(entries_of(order@)[i as int].1 == key@);
            return true;
        }
    }
    false
}

/// Dropping the oldest records keeps ids distinct.
proof fn lemma_distinct_capped(s: Seq<SeenEntry>, max: nat)
    requires
        distinct_ids(s),
    ensures
        distinct_ids(capped(s, max)),
        capped(s, max).len() <= max || capped(s, max) == s,
{
    if s.len() > max {
        let c = s.skip(s.len() - max);
        assert forall|i: int, j: int| 0 <= i < j < c.len() implies #[trigger] c[i].1
            != #[trigger] c[j].1 by {
            assert(c[i] == s[i + s.len() - max]);
            assert(c[j] == s[j + s.len() - max]);
        }
    }
}

/// Pruning keeps a suffix: it drops exactly the records before the first one that is
/// not older than `eb`.
proof fn lemma_pruned_suffix(s: Seq<SeenEntry>, eb: u64) -> (k: int)
    ensures
        0 <= k <= s.len(),
        pruned(s, eb) == s.skip(k),
        forall|i: int| 0 <= i < k ==> #[trigger] s[i].0 < eb,
        k < s.len() ==> s[k].0 >= eb,
    decreases s.len(),
{
    if s.len() > 0 && s[0].0 < eb {
        let k1 = lemma_pruned_suffix(s.drop_first(), eb);
        assert(s.drop_first().skip(k1) =~= s.skip(k1 + 1));
        assert forall|i: int| 0 <= i < k1 + 1 implies #[trigger] s[i].0 < eb by {
            if i > 0 {
                assert(s[i] == s.drop_first()[i - 1]);
            }
        }
        k1 + 1
    } else {
        assert(s.skip(0) =~= s);
        0
    }
}

/// Pruning keeps a suffix of the records.
pub proof fn lemma_pruned_is_suffix(s: Seq<SeenEntry>, eb: u64)
    ensures
        pruned(s, eb).len() <= s.len(),
        pruned(s, eb) == s.skip(s.len() - pruned(s, eb).len()),
{
    let k = lemma_pruned_suffix(s, eb);
}

/// The expiry threshold is `now - ttl`, or `now` itself when the clock has not yet run for a
/// time-to-live (the subtraction would fall below the origin); it never exceeds `now`.
pub proof fn lemma_threshold(now: u64, ttl: u64)
    ensures
        now >= ttl ==> expire_before(now, ttl) as int == now - ttl,
        now < ttl ==> expire_before(now, ttl) == now,
        expire_before(now, ttl) <= now,
{
}

/// What `add_if_new` drops before looking the id up is the longest prefix of records older
/// than the expiry threshold, nothing else: some `k` records are dropped, each older than
/// the threshold, the rest are kept in order, and the first kept one (if any) is not older.
pub proof fn lemma_only_expired_prefix_dropped(s: Seq<SeenEntry>, ttl: u64, now: u64)
    ensures
        exists|k: int|
            #![trigger s.skip(k)]
            0 <= k <= s.len() && pruned(s, expire_before(now, ttl)) == s.skip(k) && (forall|i: int|
                0 <= i < k ==> #[trigger] s[i].0 < expire_before(now, ttl)) && (k < s.len()
                ==> s[k].0 >= expire_before(now, ttl)),
{
    let k = lemma_pruned_suffix(s, expire_before(now, ttl));
    assert(pruned(s, expire_before(now, ttl)) == s.skip(k));
}

/// Pruning twice at the same threshold is pruning once.
proof fn lemma_pruned_idempotent(s: Seq<SeenEntry>, eb: u64)
    ensures
        pruned(pruned(s, eb), eb) == pruned(s, eb),
{
    let k = lemma_pruned_suffix(s, eb);
    let p = pruned(s, eb);
    if p.len() > 0 {
        assert(p[0] == s[k]);
    }
}

/// After an id is recorded as new, its record is the newest one (the capacity being
/// at least one).
proof fn lemma_added_is_last(s: Seq<SeenEntry>, ttl: u64, max: nat, id: Seq<char>, now: u64)
    requires
        max > 0,
        seen_after_add(s, ttl, max, id, now).1,
    ensures
        ({
            let s1 = seen_after_add(s, ttl, max, id, now).0;
            s1.len() > 0 && s1[s1.len() - 1] == (now, id)
        }),
{
    let p = pruned(s, expire_before(now, ttl));
    let q = p.push((now, id));
    let s1 = capped(q, max);
    if q.len() > max {
        assert(s1[s1.len() - 1] == q[q.len() - 1]);
    }
}

/// Duplicate suppression within the time-to-live: once `add_if_new` has reported an id
/// new at `now`, a later call for the same id at `now2` reports it a duplicate as long
/// as `now2`'s expiry threshold does not pass `now`, provided the cache holds at least
/// one record.
pub proof fn lemma_repeat_within_ttl(
    s: Seq<SeenEntry>,
    ttl: u64,
    max: nat,
    id: Seq<char>,
    now: u64,
    now2: u64,
)
    requires
        max > 0,
        seen_after_add(s, ttl, max, id, now).1,
        expire_before(now2, ttl) <= now,
    ensures
        !seen_after_add(seen_after_add(s, ttl, max, id, now).0, ttl, max, id, now2).1,
{
    let s1 = seen_after_add(s, ttl, max, id, now).0;
    lemma_added_is_last(s, ttl, max, id, now);
    let eb2 = expire_before(now2, ttl);
    let k = lemma_pruned_suffix(s1, eb2);
    let last = s1.len() - 1;
    assert(!(s1[last].0 < eb2));
    assert(k <= last);
    let p2 = pruned(s1, eb2);
    assert(p2[last - k] == s1[last]);
    assert(p2[last - k].1 == id);
}

/// Asking twice at the same instant: the second `add_if_new` of an id at the same `now`
/// always reports a duplicate, whatever the first reported, provided the cache holds at
/// least one record.
pub proof fn lemma_repeat_same_instant(s: Seq<SeenEntry>, ttl: u64, max: nat, id: Seq<char>, now: u64)
    requires
        max > 0,
    ensures
        !seen_after_add(seen_after_add(s, ttl, max, id, now).0, ttl, max, id, now).1,
{
    if seen_after_add(s, ttl, max, id, now).1 {
        lemma_repeat_within_ttl(s, ttl, max, id, now, now);
    } else {
        lemma_pruned_idempotent(s, expire_before(now, ttl));
    }
}

/// Expiry: when the records are in time order and every record of an id is older than the
/// expiry threshold at `now`, `add_if_new` reports the id new again.
pub proof fn lemma_expired_is_new(s: Seq<SeenEntry>, ttl: u64, max: nat, id: Seq<char>, now: u64)
    requires
        times_sorted(s),
        forall|i: int| 0 <= i < s.len() && #[trigger] s[i].1 == id ==> s[i].0 < expire_before(now, ttl),
    ensures
        seen_after_add(s, ttl, max, id, now).1,
{
    let eb = expire_before(now, ttl);
    let k = lemma_pruned_suffix(s, eb);
    let p = pruned(s, eb);
    if holds_id(p, id) {
        let i = choose|i: int| 0 <= i < p.len() && #[trigger] p[i].1 == id;
        assert(p[i] == s[i + k]);
        assert(s[k].0 <= s[i + k].0);
    }
}

/// Time order is kept: when the records are in time order and none is newer than `now`,
/// the records after `add_if_new(id, now)` are in time order and none is newer than `now`.
pub proof fn lemma_add_keeps_time_order(s: Seq<SeenEntry>, ttl: u64, max: nat, id: Seq<char>, now: u64)
    requires
        times_sorted(s),
        forall|i: int| 0 <= i < s.len() ==> #[trigger] s[i].0 <= now,
    ensures
        times_sorted(seen_after_add(s, ttl, max, id, now).0),
        forall|i: int|
            0 <= i < seen_after_add(s, ttl, max, id, now).0.len() ==> #[trigger] seen_after_add(
                s,
                ttl,
                max,
                id,
                now,
            ).0[i].0 <= now,
{
    let eb = expire_before(now, ttl);
    let k = lemma_pruned_suffix(s, eb);
    let p = pruned(s, eb);
    assert forall|i: int| 0 <= i < p.len() implies #[trigger] p[i] == s[i + k] by {}
    let q = p.push((now, id));
    assert(times_sorted(q)) by {
        assert forall|i: int, j: int| 0 <= i <= j < q.len() implies #[trigger] q[i].0
            <= #[trigger] q[j].0 by {
            if j < p.len() {
                assert(s[i + k].0 <= s[j + k].0);
            }
        }
    }
    if q.len() > max {
        let c = q.skip(q.len() - max);
        assert forall|i: int| 0 <= i < c.len() implies #[trigger] c[i] == q[i + q.len() - max] by {}
    }
}

/// No record of `s` is older than the expiry threshold at `now`.
pub open spec fn none_expired(s: Seq<SeenEntry>, ttl: u64, now: u64) -> bool {
    forall|i: int| 0 <= i < s.len() ==> #[trigger] s[i].0 >= expire_before(now, ttl)
}

/// Capacity eviction is minimal: when nothing has expired and the id is held by no record,
/// `add_if_new` reports it new, and the records afterwards are the old records followed by
/// the new one, of which only the oldest beyond `max` are dropped: there are
/// `min(len + 1, max)` of them, the newest is `(now, id)`, and every one of the newest
/// `max - 1` old records is still there, in order.
pub proof fn lemma_minimal_eviction(s: Seq<SeenEntry>, ttl: u64, max: nat, id: Seq<char>, now: u64)
    requires
        max > 0,
        none_expired(s, ttl, now),
        forall|i: int| 0 <= i < s.len() ==> #[trigger] s[i].1 != id,
    ensures
        ({
            let (r, is_new) = seen_after_add(s, ttl, max, id, now);
            &&& is_new
            &&& r.len() == if s.len() + 1 <= max {
                s.len() + 1
            } else {
                max
            }
            &&& r[r.len() - 1] == (now, id)
            &&& forall|i: int|
                0 <= i < s.len() && i >= s.len() + 1 - max ==> r[i - (s.len() + 1 - r.len())]
                    == #[trigger] s[i]
        }),
{
    let eb = expire_before(now, ttl);
    let k = lemma_pruned_suffix(s, eb);
    assert(k == 0) by {
        if k > 0 {
            assert(s[0].0 < eb);
        }
    }
    assert(s.skip(0) =~= s);
    let p = pruned(s, eb);
    assert(p == s);
    assert(!holds_id(p, id));
    let q = s.push((now, id));
    let r = capped(q, max);
    if q.len() > max {
        assert forall|i: int| 0 <= i < r.len() implies #[trigger] r[i] == q[i + q.len() - max] by {}
    }
}

/// With nothing expired, adding a new id keeps the newest `max - 1` ids seen before it:
/// asking again at the same instant about any of them reports a duplicate.
pub proof fn lemma_recent_kept_after_add(
    s: Seq<SeenEntry>,
    ttl: u64,
    max: nat,
    id: Seq<char>,
    now: u64,
    i: int,
)
    requires
        max > 0,
        none_expired(s, ttl, now),
        forall|j: int| 0 <= j < s.len() ==> #[trigger] s[j].1 != id,
        0 <= i < s.len(),
        i >= s.len() + 1 - max,
    ensures
        !seen_after_add(seen_after_add(s, ttl, max, id, now).0, ttl, max, s[i].1, now).1,
        !seen_after_add(seen_after_add(s, ttl, max, id, now).0, ttl, max, id, now).1,
{
    lemma_minimal_eviction(s, ttl, max, id, now);
    let r = seen_after_add(s, ttl, max, id, now).0;
    let eb = expire_before(now, ttl);
    assert(now >= eb);
    // Nothing in `r` has expired either, so pruning keeps it whole.
    let k = lemma_pruned_suffix(r, eb);
    if r.len() == s.len() + 1 {
        if k > 0 {
            assert(r[0] == s[0]);
        }
    } else {
        let d = s.len() + 1 - max;
        if k > 0 {
            if d < s.len() {
                assert(r[d - d] == s[d]);
            } else {
                assert(r[0] == (now, id));
            }
        }
    }
    assert(k == 0);
    assert(r.skip(0) =~= r);
    let j = i - (s.len() + 1 - r.len());
    assert(r[j] == s[i]);
    assert(holds_id(pruned(r, eb), s[i].1));
    assert(r[r.len() - 1].1 == id);
    assert(holds_id(pruned(r, eb), id));
}

} // verus!
