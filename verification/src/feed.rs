//! From Kafka messages to updates of the aggregator.
//!
//! A message counts when it can be read, when its signer is one of the
//! payer's authorized signers, and when its receiver is an address. Whatever
//! else arrives is skipped, with the reason.

use vstd::prelude::*;
use crate::address::Address;
use crate::aggregator::{Update, HOUR_MS};
use crate::records::{
    parse_fees, parse_hour, Fees, IndexerFeesHourlyProtobuf, IndexerFeesProtobuf,
};
use crate::sorted_map::{collected, SortedMap};
use crate::wire::DecodeError;

verus! {

/// Why a message adds nothing to the debts.
#[derive(Clone, Copy, Debug, PartialEq, Eq, Structural)]
pub enum Skip {
    /// The message has no payload.
    NoPayload,
    /// The payload is not a record.
    Undecodable(DecodeError),
    /// The record was not signed by one of the authorized signers.
    UnknownSigner,
    /// The receiver of the record is not an address.
    BadReceiver,
}

/// Whether `signer` is the address of one of `signers`.
pub open spec fn signer_known(signers: Seq<Address>, signer: Seq<u8>) -> bool {
    exists|i: int| 0 <= i < signers.len() && (#[trigger] signers[i]).bytes@ == signer
}

/// Whether `signer` is the address of one of `signers`.
pub fn is_authorized(signers: &Vec<Address>, signer: &[u8]) -> (known: bool)
    ensures
        known == signer_known(signers@, signer@),
{
    let candidate = match Address::from_slice(signer) {
        None => {
            return false;
        },
        Some(a) => a,
    };
    let mut i: usize = 0;
    while i < signers.len()
        invariant
            i <= signers@.len(),
            candidate.bytes@ == signer@,
            forall|j: int| 0 <= j < i ==> (#[trigger] signers@[j]).bytes@ != signer@,
        decreases signers@.len() - i,
    {
        if signers[i].same(&candidate) {
            return true;
        }
        proof {
            if signers@[i as int].bytes@ == signer@ {
                assert(signers@[i as int].bytes =~= candidate.bytes);
            }
        }
        i += 1;
    }
    false
}

/// The receiver of a record that counts, or why the record does not count.
pub open spec fn judged(fees: Fees, signers: Seq<Address>) -> Result<Seq<u8>, Skip> {
    if !signer_known(signers, fees.signer) {
        Err(Skip::UnknownSigner)
    } else if fees.receiver.len() != 20 {
        Err(Skip::BadReceiver)
    } else {
        Ok(fees.receiver)
    }
}

/// The update that a message of the realtime topic stands for, or why the
/// message is skipped.
///
/// `timestamp` is the time that Kafka gives for the message, and `now` takes
/// its place where Kafka gives none. `to_wei` turns the fee of a record, a
/// 64-bit floating-point number of whole tokens given by its bit pattern,
/// into an amount in the token's smallest unit; the fee of the update is
/// what `to_wei` makes of the fee of the record.
pub fn realtime_update<F: Fn(u64) -> u128>(
    payload: Option<&[u8]>,
    timestamp: Option<i64>,
    now: i64,
    signers: &Vec<Address>,
    to_wei: F,
) -> (r: Result<Update, Skip>)
    requires
        forall|bits: u64| call_requires(to_wei, (bits,)),
    ensures
        payload is None ==> r == Err::<Update, _>(Skip::NoPayload),
        payload matches Some(p) ==> match parse_fees(p@) {
            Err(e) => r == Err::<Update, _>(Skip::Undecodable(e)),
            Ok(fees) => match judged(fees, signers@) {
                Err(skip) => r == Err::<Update, _>(skip),
                Ok(receiver) => r matches Ok(update) && update.receiver.bytes@ == receiver
                    && update.timestamp == (match timestamp {
                    Some(t) => t,
                    None => now,
                }) && call_ensures(to_wei, (fees.fee_grt_bits,), update.fee),
            },
        },
{
    let payload = match payload {
        None => {
            return Err(Skip::NoPayload);
        },
        Some(p) => p,
    };
    let record = match IndexerFeesProtobuf::decode(payload) {
        Err(e) => {
            return Err(Skip::Undecodable(e));
        },
        Ok(record) => record,
    };
    if !is_authorized(signers, record.signer.as_slice()) {
        return Err(Skip::UnknownSigner);
    }
    let receiver = match Address::from_slice(record.receiver.as_slice()) {
        None => {
            return Err(Skip::BadReceiver);
        },
        Some(a) => a,
    };
    let fee = to_wei(record.fee_grt_bits);
    let timestamp = match timestamp {
        Some(t) => t,
        None => now,
    };
    Ok(Update { timestamp, receiver, fee })
}

/// The records of an hour that count, in their order: none if the hour is
/// from before `cutoff`, else those of known signers whose receiver is an
/// address.
pub open spec fn counted(
    aggregations: Seq<Fees>,
    timestamp: i64,
    signers: Seq<Address>,
    cutoff: Option<i64>,
) -> Seq<Fees>
    decreases aggregations.len(),
{
    if aggregations.len() == 0 || (cutoff matches Some(c) && timestamp < c) {
        Seq::empty()
    } else if judged(aggregations.last(), signers) is Ok {
        counted(aggregations.drop_last(), timestamp, signers, cutoff).push(aggregations.last())
    } else {
        counted(aggregations.drop_last(), timestamp, signers, cutoff)
    }
}

/// The updates that a message of the aggregated topic stands for, with the
/// start of its hour in milliseconds since the epoch.
///
/// Every update carries the start of the hour as its time. An hour from
/// before `cutoff` gives no updates. `to_wei` is as in `realtime_update`.
pub fn hourly_updates<F: Fn(u64) -> u128>(
    payload: Option<&[u8]>,
    signers: &Vec<Address>,
    cutoff: Option<i64>,
    to_wei: F,
) -> (r: Result<(i64, Vec<Update>), Skip>)
    requires
        forall|bits: u64| call_requires(to_wei, (bits,)),
    ensures
        payload is None ==> r == Err::<(i64, Vec<Update>), _>(Skip::NoPayload),
        payload matches Some(p) ==> match parse_hour(p@) {
            Err(e) => r == Err::<(i64, Vec<Update>), _>(Skip::Undecodable(e)),
            Ok(hour) => r matches Ok((timestamp, updates)) && timestamp == hour.timestamp && {
                let kept = counted(hour.aggregations, hour.timestamp, signers@, cutoff);
                &&& updates@.len() == kept.len()
                &&& forall|i: int|
                    0 <= i < kept.len() ==> {
                        &&& (#[trigger] updates@[i]).timestamp == hour.timestamp
                        &&& updates@[i].receiver.bytes@ == kept[i].receiver
                        &&& call_ensures(to_wei, (kept[i].fee_grt_bits,), updates@[i].fee)
                    }
            },
        },
{
    let payload = match payload {
        None => {
            return Err(Skip::NoPayload);
        },
        Some(p) => p,
    };
    let hour = match IndexerFeesHourlyProtobuf::decode(payload) {
        Err(e) => {
            return Err(Skip::Undecodable(e));
        },
        Ok(hour) => hour,
    };
    let mut updates: Vec<Update> = Vec::new();
    let stale = match cutoff {
        Some(c) => hour.timestamp < c,
        None => false,
    };
    if stale {
        return Ok((hour.timestamp, updates));
    }
    let n: usize = hour.aggregations.len();
    let mut i: usize = 0;
    let ghost all = hour@.aggregations;
    while i < n
        invariant
            i <= n,
            n == hour.aggregations@.len(),
            all == hour@.aggregations,
            all.len() == n,
            !(cutoff matches Some(c) && hour.timestamp < c),
            forall|bits: u64| call_requires(to_wei, (bits,)),
            ({
                let kept = counted(all.take(i as int), hour.timestamp, signers@, cutoff);
                &&& updates@.len() == kept.len()
                &&& forall|j: int|
                    0 <= j < kept.len() ==> {
                        &&& (#[trigger] updates@[j]).timestamp == hour.timestamp
                        &&& updates@[j].receiver.bytes@ == kept[j].receiver
                        &&& call_ensures(to_wei, (kept[j].fee_grt_bits,), updates@[j].fee)
                    }
            }),
        decreases n - i,
    {
        let record = &hour.aggregations[i];
        proof {
            assert(all.take(i + 1).drop_last() =~= all.take(i as int));
            assert(all.take(i + 1).last() == record@);
        }
        if is_authorized(signers, record.signer.as_slice()) {
            match Address::from_slice(record.receiver.as_slice()) {
                None => {},
                Some(receiver) => {
                    let fee = to_wei(record.fee_grt_bits);
                    updates.push(Update { timestamp: hour.timestamp, receiver, fee });
                },
            }
        }
        i += 1;
    }
    proof {
        assert(all.take(n as int) =~= all);
    }
    Ok((hour.timestamp, updates))
}

/// The start, in milliseconds since the epoch, of the hour in which the
/// window begins at the instant `now`: the time from which the topics are
/// read. It sticks at the ends of the range of timestamps.
pub open spec fn window_start_at(now: int, window: int) -> int {
    let start = ((now - window) / 3_600_000) * 3_600_000;
    if start < i64::MIN {
        i64::MIN as int
    } else if start > i64::MAX {
        i64::MAX as int
    } else {
        start
    }
}

/// The time from which the topics are read at the instant `now`.
pub fn window_start(now: i64, window: i64) -> (start: i64)
    ensures
        start == window_start_at(now as int, window as int),
{
    let t: i128 = (now as i128) - (window as i128);
    let hours: i128 = if t >= 0 {
        t / 3_600_000
    } else {
        let q: i128 = (-(t + 1)) / 3_600_000;
        assert(t as int / 3_600_000 == -(q as int + 1)) by (nonlinear_arith)
            requires
                t < 0,
                q == (-(t + 1)) / 3_600_000,
        ;
        -(q + 1)
    };
    let start: i128 = hours * 3_600_000;
    if start < i64::MIN as i128 {
        i64::MIN
    } else if start > i64::MAX as i128 {
        i64::MAX
    } else {
        start as i64
    }
}

/// The offsets of the last messages of the partitions of a topic, from the
/// offsets between which each partition holds messages: a partition that
/// holds messages from `low` up to, but not including, `high` has its last
/// message at `high - 1`; a partition without messages has none.
pub open spec fn last_of(watermarks: Seq<(i32, i64, i64)>) -> Seq<(i32, i64)>
    decreases watermarks.len(),
{
    if watermarks.len() == 0 {
        Seq::empty()
    } else if watermarks.last().1 < watermarks.last().2 {
        last_of(watermarks.drop_last()).push(
            (watermarks.last().0, (watermarks.last().2 - 1) as i64),
        )
    } else {
        last_of(watermarks.drop_last())
    }
}

/// The offsets at which the reading of the aggregated topic ends, from the
/// low and high watermarks of its partitions.
pub fn last_offsets(watermarks: &Vec<(i32, i64, i64)>) -> (offsets: Vec<(i32, i64)>)
    ensures
        offsets@ == last_of(watermarks@),
{
    let mut offsets: Vec<(i32, i64)> = Vec::new();
    let mut i: usize = 0;
    proof {
        assert(watermarks@.take(0) =~= Seq::<(i32, i64, i64)>::empty());
    }
    while i < watermarks.len()
        invariant
            i <= watermarks@.len(),
            offsets@ == last_of(watermarks@.take(i as int)),
        decreases watermarks@.len() - i,
    {
        proof {
            assert(watermarks@.take(i + 1).drop_last() =~= watermarks@.take(i as int));
        }
        let (partition, low, high) = watermarks[i];
        if low < high {
            offsets.push((partition, high - 1));
        }
        i += 1;
    }
    proof {
        assert(watermarks@.take(watermarks@.len() as int) =~= watermarks@);
    }
    offsets
}

/// How many messages of the realtime topic are worked on at a time.
pub const FAN_OUT: usize = 16;

/// How many updates may wait for the aggregator, and how many it takes at
/// a time.
pub const UPDATE_QUEUE: usize = 128;

/// The reading of the aggregated topic at startup, up to the offsets that
/// its partitions had when the reading began.
pub struct Drain {
    pending: SortedMap<i32, i64>,
    latest: i64,
}

impl Drain {
    /// The partitions are held in order, each once.
    pub closed spec fn wf(&self) -> bool {
        self.pending.wf()
    }

    /// The partitions that are still being read, each with the offset at
    /// which its reading ends.
    pub closed spec fn pending(&self) -> Map<i32, i64> {
        self.pending.map()
    }

    /// The latest start of an hour that has been read, in milliseconds since
    /// the epoch; zero before any.
    pub closed spec fn latest(&self) -> i64 {
        self.latest
    }

    /// A reading that ends, in each partition, at the offset that
    /// `watermarks` gives for it.
    pub fn new(watermarks: &Vec<(i32, i64)>) -> (drain: Drain)
        ensures
            drain.wf(),
            drain.pending() == collected(watermarks@),
            drain.latest() == 0,
    {
        let pending: SortedMap<i32, i64> = SortedMap::from_pairs(watermarks);
        Drain { pending, latest: 0 }
    }

    /// Whether every partition has been read up to its offset.
    pub fn is_complete(&self) -> (done: bool)
        requires
            self.wf(),
        ensures
            done == (self.pending() == Map::<i32, i64>::empty()),
    {
        self.pending.is_empty()
    }

    /// Takes note of a message of the aggregated topic: of the start of its
    /// hour, where the message could be read, and of its place. A partition
    /// is read to its end when the message at its offset has come. The
    /// result says whether every partition has then been read to its end.
    pub fn observe(&mut self, partition: i32, offset: i64, hour: Option<i64>) -> (done: bool)
        requires
            old(self).wf(),
        ensures
            final(self).wf(),
            final(self).latest() == (match hour {
                Some(h) if h > old(self).latest() => h,
                _ => old(self).latest(),
            }),
            final(self).pending() == (if old(self).pending().contains_key(partition) && old(
                self,
            ).pending()[partition] == offset {
                old(self).pending().remove(partition)
            } else {
                old(self).pending()
            }),
            done == (final(self).pending() == Map::<i32, i64>::empty()),
    {
        match hour {
            Some(h) => {
                if h > self.latest {
                    self.latest = h;
                }
            },
            None => {},
        }
        let reached = match self.pending.get(&partition) {
            Some(end) => *end == offset,
            None => false,
        };
        if reached {
            self.pending.remove(&partition);
        }
        self.is_complete()
    }

    /// The time from which the realtime topic is read once the aggregated
    /// topic has been: one hour after the latest hour that it held, so that
    /// no hour is counted twice. It sticks at the largest timestamp.
    pub fn realtime_start(&self) -> (start: i64)
        ensures
            start == (if self.latest() + 3_600_000 > i64::MAX {
                i64::MAX as int
            } else {
                self.latest() + 3_600_000
            }),
    {
        if self.latest > i64::MAX - HOUR_MS {
            i64::MAX
        } else {
            self.latest + HOUR_MS
        }
    }
}

} // verus!
