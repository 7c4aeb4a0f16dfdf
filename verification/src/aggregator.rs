//! The debt aggregator: fees per receiver and hour over a sliding window.

use vstd::prelude::*;
use crate::address::Address;
use crate::order::{Key, Rank};
use crate::sorted_map::{
    ascending, has_key, holds_at, lemma_entry_in_map, lemma_listing, lemma_push_ascending,
    listing, to_map, value_of, SortedMap,
};

verus! {

/// One hour, in milliseconds.
pub const HOUR_MS: i64 = 3_600_000;

/// One hour, in seconds.
pub const HOUR_SECS: i64 = 3_600;

/// The length of the window over which fees count as debt: 28 days, in
/// milliseconds.
pub const WINDOW_MS: i64 = 2_419_200_000;

/// The shortest time between two snapshots, in milliseconds.
pub const SNAPSHOT_PERIOD_MS: i64 = 1_000;

/// A fee that a receiver has earned at some instant.
#[derive(Clone, Copy, Debug, PartialEq, Eq)]
pub struct Update {
    /// When the fee was earned, in milliseconds since the epoch.
    pub timestamp: i64,
    /// Who earned it.
    pub receiver: Address,
    /// How much, in the token's smallest unit.
    pub fee: u128,
}

/// What a bucket is filed under: a receiver, and the start of an hour in
/// seconds since the epoch.
#[derive(Clone, Copy, Debug, PartialEq, Eq)]
pub struct BucketKey {
    pub receiver: Address,
    pub hour: i64,
}

impl Key for BucketKey {
    open spec fn before(self, other: Self) -> bool {
        self.receiver.before(other.receiver) || (self.receiver == other.receiver && self.hour
            < other.hour)
    }

    proof fn before_irreflexive(a: Self) {
        Address::before_irreflexive(a.receiver);
    }

    proof fn before_transitive(a: Self, b: Self, c: Self) {
        if a.receiver.before(b.receiver) && b.receiver.before(c.receiver) {
            Address::before_transitive(a.receiver, b.receiver, c.receiver);
        }
    }

    proof fn before_connected(a: Self, b: Self) {
        Address::before_connected(a.receiver, b.receiver);
    }

    fn rank(&self, other: &Self) -> (r: Rank) {
        proof {
            Address::before_irreflexive(self.receiver);
            Address::before_irreflexive(other.receiver);
            if self.receiver.before(other.receiver) && other.receiver.before(self.receiver) {
                Address::before_transitive(self.receiver, other.receiver, self.receiver);
            }
        }
        match self.receiver.rank(&other.receiver) {
            Rank::Before => Rank::Before,
            Rank::After => Rank::After,
            Rank::Same => {
                if self.hour < other.hour {
                    Rank::Before
                } else if self.hour > other.hour {
                    Rank::After
                } else {
                    Rank::Same
                }
            },
        }
    }
}

/// The fees on record: for each receiver and hour, what the receiver earned
/// in that hour.
pub type Buckets = Map<BucketKey, u128>;

/// The start, in seconds since the epoch, of the hour that holds the instant
/// `timestamp` (in milliseconds).
pub open spec fn hour_start(timestamp: int) -> int {
    (timestamp / 3_600_000) * 3_600
}

/// `n`, or the largest amount there is if `n` is beyond it.
pub open spec fn clamp(n: int) -> u128 {
    if n > u128::MAX {
        u128::MAX
    } else {
        n as u128
    }
}

/// Whether an update is recent enough to count at the instant `now`.
pub open spec fn in_window(update: Update, now: int, window: int) -> bool {
    update.timestamp >= now - window
}

/// The bucket that an update goes to.
pub open spec fn bucket_of(update: Update) -> BucketKey {
    BucketKey { receiver: update.receiver, hour: hour_start(update.timestamp as int) as i64 }
}

/// What a bucket holds; an absent bucket holds nothing.
pub open spec fn held(buckets: Buckets, key: BucketKey) -> u128 {
    if buckets.contains_key(key) {
        buckets[key]
    } else {
        0
    }
}

/// The buckets after one update at the instant `now`: an update from before
/// the window changes nothing, any other is added to its bucket, which
/// sticks at the largest amount.
pub open spec fn apply(buckets: Buckets, update: Update, now: int, window: int) -> Buckets {
    if in_window(update, now, window) {
        buckets.insert(
            bucket_of(update),
            clamp(held(buckets, bucket_of(update)) + update.fee),
        )
    } else {
        buckets
    }
}

/// The buckets after a run of updates, all at the instant `now`.
pub open spec fn apply_all(buckets: Buckets, updates: Seq<Update>, now: int, window: int) -> Buckets
    decreases updates.len(),
{
    if updates.len() == 0 {
        buckets
    } else {
        apply(apply_all(buckets, updates.drop_last(), now, window), updates.last(), now, window)
    }
}

/// The buckets that are left at the instant `now`: those of hours that start
/// after the hour in which the window begins.
pub open spec fn pruned(buckets: Buckets, now: int, window: int) -> Buckets {
    Map::new(
        |key: BucketKey| buckets.contains_key(key) && key.hour > hour_start(now - window),
        |key: BucketKey| buckets[key],
    )
}

/// The sum of the buckets of `receiver` among `entries`.
pub open spec fn total_for(entries: Seq<(BucketKey, u128)>, receiver: Address) -> nat
    decreases entries.len(),
{
    if entries.len() == 0 {
        0
    } else {
        total_for(entries.drop_last(), receiver) + if entries.last().0.receiver == receiver {
            entries.last().1 as nat
        } else {
            0
        }
    }
}

/// Whether any bucket belongs to `receiver`.
pub open spec fn has_receiver(buckets: Buckets, receiver: Address) -> bool {
    exists|hour: i64| buckets.contains_key(BucketKey { receiver, hour })
}

/// The debt to `receiver`: the sum of its buckets, which sticks at the
/// largest amount.
pub open spec fn debt(buckets: Buckets, receiver: Address) -> u128 {
    clamp(total_for(listing(buckets), receiver) as int)
}

/// The debt to every receiver that has a bucket.
pub open spec fn debts(buckets: Buckets) -> Map<Address, u128> {
    Map::new(
        |receiver: Address| has_receiver(buckets, receiver),
        |receiver: Address| debt(buckets, receiver),
    )
}

/// The entries of `entries` that pruning at `cutoff` keeps, in their order.
pub open spec fn kept(entries: Seq<(BucketKey, u128)>, cutoff: int) -> Seq<(BucketKey, u128)>
    decreases entries.len(),
{
    if entries.len() == 0 {
        entries
    } else if entries.last().0.hour > cutoff {
        kept(entries.drop_last(), cutoff).push(entries.last())
    } else {
        kept(entries.drop_last(), cutoff)
    }
}

/// The start of the hour that holds the instant `t`, for any difference of
/// two timestamps.
fn hour_floor(t: i128) -> (hour: i64)
    requires
        -0x1_0000_0000_0000_0000 <= t <= 0x1_0000_0000_0000_0000,
    ensures
        hour == hour_start(t as int),
{
    if t >= 0 {
        let q: i128 = t / 3_600_000;
        (q * 3_600) as i64
    } else {
        let n: i128 = -(t + 1);
        let q: i128 = n / 3_600_000;
        assert(t as int / 3_600_000 == -(q as int + 1)) by (nonlinear_arith)
            requires
                t < 0,
                n == -(t + 1),
                q == n / 3_600_000,
        ;
        (-(q + 1) * 3_600) as i64
    }
}

/// The start of the hour that holds `timestamp` (milliseconds since the
/// epoch), in seconds since the epoch.
pub fn hourly_timestamp(timestamp: i64) -> (hour: i64)
    ensures
        hour == hour_start(timestamp as int),
{
    hour_floor(timestamp as i128)
}

/// `entries` holds `entry` somewhere.
pub open spec fn occurs(entries: Seq<(BucketKey, u128)>, entry: (BucketKey, u128)) -> bool {
    exists|j: int| 0 <= j < entries.len() && entries[j] == entry
}

/// Pruning keeps exactly the entries of later hours, in their order.
pub proof fn lemma_kept(entries: Seq<(BucketKey, u128)>, cutoff: int)
    requires
        ascending(entries),
    ensures
        ascending(kept(entries, cutoff)),
        forall|a: int|
            0 <= a < kept(entries, cutoff).len() ==> occurs(entries, #[trigger] kept(entries, cutoff)[a])
                && kept(entries, cutoff)[a].0.hour > cutoff,
        forall|j: int|
            0 <= j < entries.len() && (#[trigger] entries[j]).0.hour > cutoff ==> occurs(
                kept(entries, cutoff),
                entries[j],
            ),
    decreases entries.len(),
{
    if entries.len() > 0 {
        let rest = entries.drop_last();
        let last = entries.last();
        let n = entries.len() - 1;
        assert(ascending(rest));
        lemma_kept(rest, cutoff);
        let k0 = kept(rest, cutoff);
        let k = kept(entries, cutoff);
        assert forall|a: int| 0 <= a < k0.len() implies occurs(entries, #[trigger] k0[a])
            && k0[a].0.before(last.0) by {
            assert(occurs(rest, k0[a]));
            let j = choose|j: int| 0 <= j < rest.len() && rest[j] == k0[a];
            assert(entries[j] == k0[a]);
            assert(entries[j].0.before(entries[n].0));
        }
        if last.0.hour > cutoff {
            if k0.len() > 0 {
                assert(k0[k0.len() - 1].0.before(last.0));
            }
            lemma_push_ascending(k0, last.0, last.1);
            assert(k == k0.push(last));
            assert(entries[n] == last);
            assert forall|a: int| 0 <= a < k.len() implies occurs(entries, #[trigger] k[a])
                && k[a].0.hour > cutoff by {
                if a < k0.len() {
                    assert(k[a] == k0[a]);
                }
            }
            assert forall|j: int|
                0 <= j < entries.len() && (#[trigger] entries[j]).0.hour > cutoff implies occurs(
                k,
                entries[j],
            ) by {
                if j < n {
                    assert(rest[j] == entries[j]);
                    assert(occurs(k0, rest[j]));
                    let a = choose|a: int| 0 <= a < k0.len() && k0[a] == rest[j];
                    assert(k[a] == entries[j]);
                } else {
                    assert(k[k0.len() as int] == entries[j]);
                }
            }
        } else {
            assert forall|j: int|
                0 <= j < entries.len() && (#[trigger] entries[j]).0.hour > cutoff implies occurs(
                k,
                entries[j],
            ) by {
                assert(rest[j] == entries[j]);
            }
        }
    }
}

/// Pruning a listing prunes the map it lists.
pub proof fn lemma_kept_map(entries: Seq<(BucketKey, u128)>, now: int, window: int)
    requires
        ascending(entries),
    ensures
        ascending(kept(entries, hour_start(now - window))),
        to_map(kept(entries, hour_start(now - window))) == pruned(to_map(entries), now, window),
{
    let cutoff = hour_start(now - window);
    let k = kept(entries, cutoff);
    lemma_kept(entries, cutoff);
    let m = to_map(entries);
    assert forall|key: BucketKey| has_key(k, key) == (m.contains_key(key) && key.hour
        > cutoff) by {
        if has_key(k, key) {
            let a = choose|a: int| holds_at(k, key, a);
            assert(occurs(entries, k[a]));
            let j = choose|j: int| 0 <= j < entries.len() && entries[j] == k[a];
            assert(holds_at(entries, key, j));
        }
        if m.contains_key(key) && key.hour > cutoff {
            let j = choose|j: int| holds_at(entries, key, j);
            assert(holds_at(entries, key, j));
            assert(occurs(k, entries[j]));
            let a = choose|a: int| 0 <= a < k.len() && k[a] == entries[j];
            assert(holds_at(k, key, a));
        }
    }
    assert forall|key: BucketKey| has_key(k, key) implies value_of(k, key) == m[key] by {
        let a = choose|a: int| holds_at(k, key, a);
        lemma_entry_in_map(k, a);
        assert(occurs(entries, k[a]));
        let j = choose|j: int| 0 <= j < entries.len() && entries[j] == k[a];
        lemma_entry_in_map(entries, j);
    }
    assert(to_map(k) =~= pruned(m, now, window));
}

/// One more entry adds its fee to the total of its receiver and to no other.
pub proof fn lemma_total_step(entries: Seq<(BucketKey, u128)>, i: int, receiver: Address)
    requires
        0 <= i < entries.len(),
    ensures
        total_for(entries.take(i + 1), receiver) == total_for(entries.take(i), receiver) + (if entries[i].0.receiver
            == receiver {
            entries[i].1 as nat
        } else {
            0
        }),
{
    assert(entries.take(i + 1).drop_last() =~= entries.take(i));
}

/// A receiver without entries has a total of nothing.
pub proof fn lemma_total_absent(entries: Seq<(BucketKey, u128)>, receiver: Address)
    requires
        forall|j: int| 0 <= j < entries.len() ==> (#[trigger] entries[j]).0.receiver != receiver,
    ensures
        total_for(entries, receiver) == 0,
    decreases entries.len(),
{
    if entries.len() > 0 {
        assert(entries.last() == entries[entries.len() - 1]);
        let rest = entries.drop_last();
        assert forall|j: int| 0 <= j < rest.len() implies (#[trigger] rest[j]).0.receiver
            != receiver by {
            assert(rest[j] == entries[j]);
        }
        lemma_total_absent(rest, receiver);
    }
}

/// `receiver` has an entry among the first `n` of `entries`.
pub open spec fn seen(entries: Seq<(BucketKey, u128)>, receiver: Address, n: int) -> bool {
    exists|j: int| 0 <= j < n && j < entries.len() && (#[trigger] entries[j]).0.receiver == receiver
}

/// The fee aggregator: what every receiver earned in every hour of the
/// window.
pub struct DB {
    data: SortedMap<BucketKey, u128>,
    window: i64,
    last_snapshot: i64,
}

impl View for DB {
    type V = Buckets;

    closed spec fn view(&self) -> Buckets {
        self.data.map()
    }
}

impl DB {
    /// The buckets are held in order, each once.
    pub closed spec fn wf(&self) -> bool {
        self.data.wf()
    }

    /// The length of the window, in milliseconds.
    pub closed spec fn window_ms(&self) -> i64 {
        self.window
    }

    /// When the last snapshot was taken, in milliseconds since the epoch.
    pub closed spec fn published_at(&self) -> i64 {
        self.last_snapshot
    }

    /// Whether a snapshot is due at the instant `now`.
    pub open spec fn snapshot_due(&self, now: i64) -> bool {
        now - self.published_at() >= 1_000
    }

    /// An aggregator without fees, started at the instant `now`, that counts
    /// `window` milliseconds back.
    pub fn new(window: i64, now: i64) -> (db: DB)
        ensures
            db.wf(),
            db@ == Map::<BucketKey, u128>::empty(),
            db.window_ms() == window,
            db.published_at() == now,
    {
        let db = DB { data: SortedMap::new(), window, last_snapshot: now };
        assert(db@ =~= Map::<BucketKey, u128>::empty()) by {
            assert forall|key: BucketKey| !has_key(db.data@, key) by {
                if has_key(db.data@, key) {
                    let c = choose|c: int| holds_at(db.data@, key, c);
                    assert(holds_at(db.data@, key, c));
                }
            }
        }
        db
    }

    /// Counts one update at the instant `now`. An update from before the
    /// window is dropped.
    pub fn update(&mut self, update: Update, now: i64)
        requires
            old(self).wf(),
        ensures
            final(self).wf(),
            final(self)@ == apply(old(self)@, update, now as int, old(self).window_ms() as int),
            final(self).window_ms() == old(self).window_ms(),
            final(self).published_at() == old(self).published_at(),
    {
        if (update.timestamp as i128) < (now as i128) - (self.window as i128) {
            return ;
        }
        let key = BucketKey { receiver: update.receiver, hour: hourly_timestamp(update.timestamp) };
        let current: u128 = match self.data.get(&key) {
            Some(value) => *value,
            None => 0,
        };
        self.data.insert(key, current.saturating_add(update.fee));
    }

    /// Drops the buckets of hours that start no later than the hour in which
    /// the window begins at the instant `now`.
    pub fn prune(&mut self, now: i64)
        requires
            old(self).wf(),
        ensures
            final(self).wf(),
            final(self)@ == pruned(old(self)@, now as int, old(self).window_ms() as int),
            final(self).window_ms() == old(self).window_ms(),
            final(self).published_at() == old(self).published_at(),
    {
        let cutoff: i64 = hour_floor((now as i128) - (self.window as i128));
        let mut out: SortedMap<BucketKey, u128> = SortedMap::new();
        let n: usize = self.data.len();
        let mut i: usize = 0;
        proof {
            assert(self.data@.take(0) =~= Seq::<(BucketKey, u128)>::empty());
        }
        while i < n
            invariant
                i <= n,
                n == self.data@.len(),
                self.data.wf(),
                out.wf(),
                out@ == kept(self.data@.take(i as int), cutoff as int),
            decreases n - i,
        {
            let key = self.data.key_at(i);
            let value: u128 = *self.data.value_at(i);
            proof {
                let s = self.data@;
                let head = s.take(i as int);
                assert(s.take(i + 1).drop_last() =~= head);
                assert(s.take(i + 1).last() == s[i as int]);
                assert(ascending(head));
                lemma_kept(head, cutoff as int);
                if out@.len() > 0 {
                    let e = out@.last();
                    assert(e == kept(head, cutoff as int)[out@.len() - 1]);
                    assert(occurs(head, e));
                    let j = choose|j: int| 0 <= j < head.len() && head[j] == e;
                    assert(s[j] == e);
                    assert(s[j].0.before(s[i as int].0));
                }
            }
            if key.hour > cutoff {
                out.push_last(key, value);
            }
            i += 1;
        }
        proof {
            assert(self.data@.take(n as int) =~= self.data@);
            lemma_kept_map(self.data@, now as int, self.window as int);
        }
        self.data = out;
    }

    /// The debt to every receiver: the sum of its buckets.
    pub fn snapshot(&self) -> (totals: SortedMap<Address, u128>)
        requires
            self.wf(),
        ensures
            totals.wf(),
            totals.map() == debts(self@),
    {
        let mut out: SortedMap<Address, u128> = SortedMap::new();
        let n: usize = self.data.len();
        let mut i: usize = 0;
        let ghost s = self.data@;
        proof {
            assert forall|r: Address| !out.map().contains_key(r) by {
                if has_key(out@, r) {
                    let c = choose|c: int| holds_at(out@, r, c);
                    assert(holds_at(out@, r, c));
                }
            }
        }
        while i < n
            invariant
                i <= n,
                n == s.len(),
                s == self.data@,
                self.data.wf(),
                out.wf(),
                forall|r: Address| out.map().contains_key(r) == seen(s, r, i as int),
                forall|r: Address|
                    out.map().contains_key(r) ==> #[trigger] out.map()[r] == clamp(
                        total_for(s.take(i as int), r) as int,
                    ),
            decreases n - i,
        {
            let key = self.data.key_at(i);
            let fee: u128 = *self.data.value_at(i);
            let ghost before = out.map();
            let current: u128 = match out.get(&key.receiver) {
                Some(value) => *value,
                None => 0,
            };
            proof {
                if !before.contains_key(key.receiver) {
                    assert(!seen(s, key.receiver, i as int));
                    assert forall|j: int| 0 <= j < s.take(i as int).len() implies (
                    #[trigger] s.take(i as int)[j]).0.receiver != key.receiver by {
                        assert(s.take(i as int)[j] == s[j]);
                    }
                    lemma_total_absent(s.take(i as int), key.receiver);
                }
            }
            out.insert(key.receiver, current.saturating_add(fee));
            proof {
                assert forall|r: Address| out.map().contains_key(r) == seen(
                    s,
                    r,
                    i as int + 1,
                ) by {
                    if seen(s, r, i as int + 1) {
                        let j = choose|j: int|
                            0 <= j < i as int + 1 && j < s.len() && (#[trigger] s[j]).0.receiver
                                == r;
                        if j < i {
                            assert(seen(s, r, i as int));
                        }
                    }
                    if seen(s, r, i as int) {
                        let j = choose|j: int|
                            0 <= j < i as int && j < s.len() && (#[trigger] s[j]).0.receiver == r;
                        assert(seen(s, r, i as int + 1));
                    }
                    if r == key.receiver {
                        assert(s[i as int].0.receiver == r);
                        assert(seen(s, r, i as int + 1));
                    }
                }
                assert forall|r: Address| out.map().contains_key(r) implies #[trigger] out.map()[r]
                    == clamp(total_for(s.take(i as int + 1), r) as int) by {
                    lemma_total_step(s, i as int, r);
                    if r != key.receiver {
                        assert(before.contains_key(r));
                        assert(out.map()[r] == before[r]);
                    }
                }
            }
            i += 1;
        }
        proof {
            assert(s.take(n as int) =~= s);
            lemma_listing(s);
            assert forall|r: Address| has_receiver(self@, r) == seen(s, r, n as int) by {
                if has_receiver(self@, r) {
                    let hour = choose|hour: i64|
                        self@.contains_key(BucketKey { receiver: r, hour });
                    let key = BucketKey { receiver: r, hour };
                    assert(has_key(s, key));
                    let c = choose|c: int| holds_at(s, key, c);
                    assert(holds_at(s, key, c));
                    assert(s[c].0.receiver == r);
                }
                if seen(s, r, n as int) {
                    let j = choose|j: int|
                        0 <= j < n as int && j < s.len() && (#[trigger] s[j]).0.receiver == r;
                    lemma_entry_in_map(s, j);
                    assert(BucketKey { receiver: r, hour: s[j].0.hour } == s[j].0);
                }
            }
            assert(out.map() =~= debts(self@));
        }
        out
    }

    /// One turn of the aggregator at the instant `now`: counts the updates of
    /// `batch` in their order, and, if a second or more has passed since the
    /// last snapshot, prunes and hands out a new snapshot.
    pub fn step(&mut self, batch: &Vec<Update>, now: i64) -> (published: Option<
        SortedMap<Address, u128>,
    >)
        requires
            old(self).wf(),
        ensures
            final(self).wf(),
            final(self).window_ms() == old(self).window_ms(),
            published is Some == old(self).snapshot_due(now),
            final(self)@ == (if old(self).snapshot_due(now) {
                pruned(
                    apply_all(old(self)@, batch@, now as int, old(self).window_ms() as int),
                    now as int,
                    old(self).window_ms() as int,
                )
            } else {
                apply_all(old(self)@, batch@, now as int, old(self).window_ms() as int)
            }),
            final(self).published_at() == (if old(self).snapshot_due(now) {
                now
            } else {
                old(self).published_at()
            }),
            published matches Some(totals) ==> totals.wf() && totals.map() == debts(final(self)@),
    {
        let n: usize = batch.len();
        let mut i: usize = 0;
        proof {
            assert(batch@.take(0) =~= Seq::<Update>::empty());
        }
        while i < n
            invariant
                i <= n,
                n == batch@.len(),
                self.wf(),
                self.window_ms() == old(self).window_ms(),
                self.published_at() == old(self).published_at(),
                self@ == apply_all(
                    old(self)@,
                    batch@.take(i as int),
                    now as int,
                    old(self).window_ms() as int,
                ),
            decreases n - i,
        {
            proof {
                assert(batch@.take(i + 1).drop_last() =~= batch@.take(i as int));
            }
            self.update(batch[i], now);
            i += 1;
        }
        proof {
            assert(batch@.take(n as int) =~= batch@);
        }
        if (now as i128) - (self.last_snapshot as i128) >= 1_000 {
            self.prune(now);
            let totals = self.snapshot();
            self.last_snapshot = now;
            Some(totals)
        } else {
            None
        }
    }
}

/// An update from before the window leaves every bucket, and so every debt,
/// as it was.
pub proof fn lemma_stale_update_ignored(buckets: Buckets, update: Update, now: int, window: int)
    requires
        update.timestamp < now - window,
    ensures
        apply(buckets, update, now, window) == buckets,
        debts(apply(buckets, update, now, window)) == debts(buckets),
{
}

/// Counting an update takes no bucket away and makes no bucket smaller.
pub proof fn lemma_buckets_grow(buckets: Buckets, update: Update, now: int, window: int)
    ensures
        forall|key: BucketKey| #[trigger]
            buckets.contains_key(key) ==> apply(buckets, update, now, window).contains_key(key)
                && apply(buckets, update, now, window)[key] >= buckets[key],
{
}

/// Two updates at one instant may be counted in either order.
pub proof fn lemma_apply_commutes(buckets: Buckets, a: Update, b: Update, now: int, window: int)
    ensures
        apply(apply(buckets, a, now, window), b, now, window) == apply(
            apply(buckets, b, now, window),
            a,
            now,
            window,
        ),
{
    assert(apply(apply(buckets, a, now, window), b, now, window) =~= apply(
        apply(buckets, b, now, window),
        a,
        now,
        window,
    ));
}

/// Counting a run of updates is counting the run without one of them, and
/// then that one.
pub proof fn lemma_apply_all_last(
    buckets: Buckets,
    updates: Seq<Update>,
    j: int,
    now: int,
    window: int,
)
    requires
        0 <= j < updates.len(),
    ensures
        apply_all(buckets, updates, now, window) == apply(
            apply_all(buckets, updates.remove(j), now, window),
            updates[j],
            now,
            window,
        ),
    decreases updates.len(),
{
    let n = updates.len() - 1;
    if j == n {
        assert(updates.remove(j) =~= updates.drop_last());
    } else {
        let head = updates.drop_last();
        lemma_apply_all_last(buckets, head, j, now, window);
        let rest = apply_all(buckets, head.remove(j), now, window);
        lemma_apply_commutes(rest, updates[j], updates.last(), now, window);
        assert(updates.remove(j).drop_last() =~= head.remove(j));
        assert(updates.remove(j).last() == updates.last());
        assert(head[j] == updates[j]);
    }
}

/// The same updates, counted at one instant in any order, leave the same
/// buckets and the same debts.
pub proof fn lemma_any_order(
    buckets: Buckets,
    first: Seq<Update>,
    second: Seq<Update>,
    now: int,
    window: int,
)
    requires
        first.to_multiset() == second.to_multiset(),
    ensures
        apply_all(buckets, first, now, window) == apply_all(buckets, second, now, window),
        debts(apply_all(buckets, first, now, window)) == debts(
            apply_all(buckets, second, now, window),
        ),
    decreases first.len(),
{
    first.to_multiset_ensures();
    second.to_multiset_ensures();
    if first.len() == 0 {
        assert(second.len() == 0);
    } else {
        let last = first.last();
        let n = first.len() - 1;
        assert(first[n] == last);
        assert(first.contains(last));
        assert(second.to_multiset().count(last) > 0);
        assert(second.contains(last));
        let j = choose|j: int| 0 <= j < second.len() && second[j] == last;
        assert(first.remove(n) =~= first.drop_last());
        assert(first.drop_last().to_multiset() == second.remove(j).to_multiset());
        lemma_any_order(buckets, first.drop_last(), second.remove(j), now, window);
        lemma_apply_all_last(buckets, second, j, now, window);
    }
}

/// Pruning twice at one instant is pruning once.
pub proof fn lemma_prune_idempotent(buckets: Buckets, now: int, window: int)
    ensures
        pruned(pruned(buckets, now, window), now, window) == pruned(buckets, now, window),
{
    assert(pruned(pruned(buckets, now, window), now, window) =~= pruned(buckets, now, window));
}

/// What pruning leaves are the buckets, unchanged, of hours that start
/// after the hour in which the window begins.
pub proof fn lemma_pruned_in_window(buckets: Buckets, now: int, window: int)
    ensures
        forall|key: BucketKey| #[trigger]
            pruned(buckets, now, window).contains_key(key) ==> key.hour > hour_start(now - window)
                && buckets.contains_key(key) && pruned(buckets, now, window)[key] == buckets[key],
{
}

} // verus!
