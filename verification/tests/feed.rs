use prost::encoding::{bytes, double, int64};
use tap_escrow_manager::address::Address;
use tap_escrow_manager::aggregator::{Update, DB, HOUR_MS, WINDOW_MS};
use tap_escrow_manager::feed::{
    hourly_updates, is_authorized, realtime_update, window_start, Drain, Skip,
};
use tap_escrow_manager::ladder::GRT;
use tap_escrow_manager::wire::DecodeError;

fn addr(n: u8) -> Address {
    Address::new([n; 20])
}

fn to_wei(bits: u64) -> u128 {
    (f64::from_bits(bits) * 1e18) as u128
}

fn fees(signer: &[u8], receiver: &[u8], fee_grt: f64) -> Vec<u8> {
    let mut buf: Vec<u8> = Vec::new();
    bytes::encode(1, &signer.to_vec(), &mut buf);
    bytes::encode(2, &receiver.to_vec(), &mut buf);
    double::encode(3, &fee_grt, &mut buf);
    buf
}

fn hour(timestamp: i64, records: &[Vec<u8>]) -> Vec<u8> {
    let mut buf: Vec<u8> = Vec::new();
    int64::encode(1, &timestamp, &mut buf);
    for record in records {
        bytes::encode(2, record, &mut buf);
    }
    buf
}

const NOW: i64 = 1_700_000_000_000;

#[test]
fn signer_is_known_by_its_twenty_bytes() {
    let signers = vec![addr(1), addr(2)];
    assert!(is_authorized(&signers, &[1; 20]));
    assert!(is_authorized(&signers, &[2; 20]));
    assert!(!is_authorized(&signers, &[3; 20]));
    assert!(!is_authorized(&signers, &[1; 19]));
    assert!(!is_authorized(&signers, &[]));
    assert!(!is_authorized(&vec![], &[1; 20]));
}

#[test]
fn realtime_message_becomes_an_update() {
    let signers = vec![addr(1)];
    let payload = fees(&[1; 20], &[9; 20], 1.5);
    assert_eq!(
        realtime_update(Some(&payload), Some(NOW - 5), NOW, &signers, to_wei),
        Ok(Update { timestamp: NOW - 5, receiver: addr(9), fee: 1_500_000_000_000_000_000 })
    );
    // without a time of its own the message counts as of now
    assert_eq!(
        realtime_update(Some(&payload), None, NOW, &signers, to_wei),
        Ok(Update { timestamp: NOW, receiver: addr(9), fee: 1_500_000_000_000_000_000 })
    );
}

#[test]
fn fee_is_what_the_conversion_makes_of_it() {
    let signers = vec![addr(1)];
    let payload = fees(&[1; 20], &[9; 20], 0.000123);
    let update = realtime_update(Some(&payload), Some(NOW), NOW, &signers, to_wei).unwrap();
    assert_eq!(update.fee, (0.000123f64 * 1e18) as u128);
    assert_eq!(update.fee, 123_000_000_000_000);
    let update = realtime_update(Some(&payload), Some(NOW), NOW, &signers, |_| 7).unwrap();
    assert_eq!(update.fee, 7);
}

#[test]
fn realtime_message_is_skipped_with_its_reason() {
    let signers = vec![addr(1)];
    assert_eq!(realtime_update(None, Some(NOW), NOW, &signers, to_wei), Err(Skip::NoPayload));
    assert_eq!(
        realtime_update(Some(&[0x80]), Some(NOW), NOW, &signers, to_wei),
        Err(Skip::Undecodable(DecodeError::InvalidVarint))
    );
    let stranger = fees(&[2; 20], &[9; 20], 1.5);
    assert_eq!(
        realtime_update(Some(&stranger), Some(NOW), NOW, &signers, to_wei),
        Err(Skip::UnknownSigner)
    );
    let short_signer = fees(&[1; 19], &[9; 20], 1.5);
    assert_eq!(
        realtime_update(Some(&short_signer), Some(NOW), NOW, &signers, to_wei),
        Err(Skip::UnknownSigner)
    );
    let no_receiver = fees(&[1; 20], &[9; 21], 1.5);
    assert_eq!(
        realtime_update(Some(&no_receiver), Some(NOW), NOW, &signers, to_wei),
        Err(Skip::BadReceiver)
    );
    assert_eq!(
        realtime_update(Some(&[]), Some(NOW), NOW, &signers, to_wei),
        Err(Skip::UnknownSigner)
    );
}

#[test]
fn record_of_an_unknown_signer_leaves_the_snapshot_alone() {
    let signers = vec![addr(1)];
    let mut db = DB::new(WINDOW_MS, NOW);
    let messages =
        [fees(&[1; 20], &[9; 20], 1.0), fees(&[2; 20], &[9; 20], 5.0), fees(&[2; 20], &[8; 20], 5.0)];
    for payload in messages.iter() {
        if let Ok(update) = realtime_update(Some(payload), Some(NOW), NOW, &signers, to_wei) {
            db.update(update, NOW);
        }
    }
    assert_eq!(db.snapshot().entries(), &vec![(addr(9), GRT)]);
}

#[test]
fn hourly_message_becomes_updates_at_the_start_of_its_hour() {
    let signers = vec![addr(1), addr(2)];
    let payload = hour(
        NOW,
        &[
            fees(&[1; 20], &[9; 20], 1.0),
            fees(&[3; 20], &[9; 20], 2.0),
            fees(&[2; 20], &[8; 20], 0.5),
            fees(&[2; 20], &[8; 2], 4.0),
        ],
    );
    assert_eq!(
        hourly_updates(Some(&payload), &signers, None, to_wei),
        Ok((
            NOW,
            vec![
                Update { timestamp: NOW, receiver: addr(9), fee: GRT },
                Update { timestamp: NOW, receiver: addr(8), fee: GRT / 2 },
            ]
        ))
    );
}

#[test]
fn hourly_message_before_the_cutoff_gives_no_updates() {
    let signers = vec![addr(1)];
    let payload = hour(NOW, &[fees(&[1; 20], &[9; 20], 1.0)]);
    assert_eq!(hourly_updates(Some(&payload), &signers, Some(NOW + 1), to_wei), Ok((NOW, vec![])));
    let counted = hourly_updates(Some(&payload), &signers, Some(NOW), to_wei).unwrap();
    assert_eq!(counted.1.len(), 1);
}

#[test]
fn hourly_message_is_skipped_with_its_reason() {
    let signers = vec![addr(1)];
    assert_eq!(hourly_updates(None, &signers, None, to_wei), Err(Skip::NoPayload));
    assert_eq!(
        hourly_updates(Some(&[0x12, 0x05]), &signers, None, to_wei),
        Err(Skip::Undecodable(DecodeError::BufferUnderflow))
    );
}

#[test]
fn window_start_is_the_hour_in_which_the_window_begins() {
    assert_eq!(window_start(NOW, WINDOW_MS), 1_697_580_000_000);
    assert_eq!(window_start(NOW, WINDOW_MS) % HOUR_MS, 0);
    assert!(window_start(NOW, WINDOW_MS) <= NOW - WINDOW_MS);
    assert!(window_start(NOW, WINDOW_MS) > NOW - WINDOW_MS - HOUR_MS);
    assert_eq!(window_start(0, 1), -3_600_000);
    assert_eq!(window_start(i64::MIN, WINDOW_MS), i64::MIN);
    assert_eq!(window_start(i64::MAX, -1), 9_223_372_036_854_000_000);
    assert_eq!(window_start(i64::MAX, i64::MIN), i64::MAX);
}

#[test]
fn drain_ends_when_every_partition_has_reached_its_offset() {
    let mut drain = Drain::new(&vec![(0, 10), (1, 0), (2, 7)]);
    assert!(!drain.is_complete());
    assert!(!drain.observe(0, 9, Some(HOUR_MS)));
    assert!(!drain.observe(0, 10, Some(2 * HOUR_MS)));
    // a partition that is done, or that was never asked for, changes nothing
    assert!(!drain.observe(0, 11, Some(3 * HOUR_MS)));
    assert!(!drain.observe(5, 7, None));
    assert!(!drain.observe(2, 7, Some(HOUR_MS)));
    assert!(drain.observe(1, 0, None));
    assert!(drain.is_complete());
    assert_eq!(drain.realtime_start(), 4 * HOUR_MS);
}

#[test]
fn drain_without_partitions_is_complete() {
    let drain = Drain::new(&vec![]);
    assert!(drain.is_complete());
    assert_eq!(drain.realtime_start(), HOUR_MS);
}

#[test]
fn realtime_starts_one_hour_after_the_latest_aggregated_hour() {
    let t0 = 1_699_999_200_000;
    let mut drain = Drain::new(&vec![(0, 2)]);
    drain.observe(0, 0, Some(t0 - HOUR_MS));
    drain.observe(0, 1, Some(t0));
    assert!(drain.observe(0, 2, Some(t0 - 2 * HOUR_MS)));
    assert_eq!(drain.realtime_start(), t0 + 3_600_000);
    // a realtime message of the hour that the aggregated topic held lies before the start
    assert!(t0 + HOUR_MS - 1 < drain.realtime_start());
}

#[test]
fn realtime_start_sticks_at_the_largest_timestamp() {
    let mut drain = Drain::new(&vec![(0, 0)]);
    drain.observe(0, 0, Some(i64::MAX - 5));
    assert_eq!(drain.realtime_start(), i64::MAX);
    let mut drain = Drain::new(&vec![(0, 0)]);
    drain.observe(0, 0, Some(-5));
    assert_eq!(drain.realtime_start(), HOUR_MS);
}
