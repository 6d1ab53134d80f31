use binda::liveness::TimeSource;
use binda::ntp::{
    adjusted_millis, default_ntp_servers, measured_offset, offset_millis, read_ntp_timestamp,
    request_packet, write_ntp_timestamp, NtpTimeSource, Timestamp,
};
use std::time::{Duration, SystemTime, UNIX_EPOCH};

#[test]
fn timestamp_round_trips_through_ntp_encoding() {
    let original = Duration::new(1_700_000_000, 500_000_000);
    let mut buf = Vec::new();
    write_ntp_timestamp(
        &mut buf,
        Timestamp {
            secs: original.as_secs(),
            nanos: original.subsec_nanos(),
        },
    );
    let read = read_ntp_timestamp(&buf, 0);
    let decoded = Duration::new(read.secs, read.nanos);
    let diff = decoded.abs_diff(original);
    assert!(diff < Duration::from_millis(1));
}

#[test]
fn timestamp_bytes_count_from_1900() {
    let mut buf = vec![0xEE];
    write_ntp_timestamp(&mut buf, Timestamp { secs: 0, nanos: 500_000_000 });
    assert_eq!(buf, vec![0xEE, 0x83, 0xAA, 0x7E, 0x80, 0x80, 0, 0, 0]);
    assert_eq!(
        read_ntp_timestamp(&buf, 1),
        Timestamp {
            secs: 0,
            nanos: 500_000_000
        }
    );
}

#[test]
fn time_before_1970_counts_as_1970() {
    let buf = [0, 0, 0, 1, 0, 0, 0, 0];
    assert_eq!(read_ntp_timestamp(&buf, 0), Timestamp { secs: 0, nanos: 0 });
}

#[test]
fn nanoseconds_survive_to_one() {
    for nanos in [0, 1, 2, 999_999_999, 123_456_789] {
        let mut buf = Vec::new();
        write_ntp_timestamp(&mut buf, Timestamp { secs: 9, nanos });
        let read = read_ntp_timestamp(&buf, 0);
        assert_eq!(read.secs, 9);
        assert!(read.nanos == nanos || read.nanos + 1 == nanos);
    }
}

#[test]
fn unsynced_source_falls_back_to_zero_offset() {
    let source = NtpTimeSource::unsynced();
    assert!(!source.is_synced());
    let local = SystemTime::now()
        .duration_since(UNIX_EPOCH)
        .unwrap()
        .as_millis() as u64;
    let reported = source.now_millis();
    assert!(reported.abs_diff(local) < 1000);
}

/// The reply of a server whose clock is ahead by so many milliseconds, to a
/// request that it got at a local time.
fn reply_of(local_millis: i64, ahead_millis: i64) -> Vec<u8> {
    let millis = (local_millis + ahead_millis) as u64;
    let stamp = Timestamp {
        secs: millis / 1000,
        nanos: (millis % 1000) as u32 * 1_000_000,
    };
    let mut reply = vec![0u8; 32];
    write_ntp_timestamp(&mut reply, stamp);
    write_ntp_timestamp(&mut reply, stamp);
    reply
}

#[test]
fn query_offset_millis_reflects_server_clock_difference() {
    let local = 1_700_000_000_000;
    let offset = measured_offset(&reply_of(local, 5_000), local, local).unwrap();
    assert!((offset - 5_000).abs() < 1_000);
    assert!((offset - 5_000).abs() <= 1);
}

#[test]
fn query_offset_millis_handles_negative_offset() {
    let local = 1_700_000_000_000;
    let offset = measured_offset(&reply_of(local, -3_000), local, local).unwrap();
    assert!((offset + 3_000).abs() < 1_000);
    assert!((offset + 3_000).abs() <= 1);
}

#[test]
fn short_reply_is_refused() {
    assert_eq!(measured_offset(&[0; 47], 0, 0), None);
    assert!(measured_offset(&[0; 48], 0, 0).is_some());
}

#[test]
fn offset_is_half_the_sum_rounded_to_zero() {
    assert_eq!(offset_millis(100, 600, 600, 100), 500);
    assert_eq!(offset_millis(100, 125, 125, 110), 20);
    assert_eq!(offset_millis(0, 1, 0, 0), 0);
    assert_eq!(offset_millis(1, 0, 0, 0), 0);
    assert_eq!(offset_millis(2, 0, 0, 1), -1);
    assert_eq!(offset_millis(i64::MAX, 0, 0, i64::MAX), -i64::MAX);
}

#[test]
fn request_is_a_client_packet() {
    let packet = request_packet(Timestamp { secs: 1, nanos: 0 });
    assert_eq!(packet.len(), 48);
    assert_eq!(packet[0], 0b00_100_011);
    assert!(packet[1..40].iter().all(|b| *b == 0));
    assert_eq!(&packet[40..], &[0x83, 0xAA, 0x7E, 0x81, 0, 0, 0, 0]);
}

#[test]
fn sync_keeps_the_last_offset_without_an_answer() {
    let mut source = NtpTimeSource::unsynced();
    assert!(!source.sync(None));
    assert!(!source.is_synced());
    assert!(source.sync(Some(10_000)));
    assert!(source.is_synced());
    assert_eq!(source.reading_at(5), 10_005);
    assert!(!source.sync(None));
    assert_eq!(source.reading_at(5), 10_005);
}

#[test]
fn ntp_time_source_stays_unsynced_when_every_server_is_unreachable() {
    let mut source = NtpTimeSource::unsynced();
    source.sync(None);
    assert!(!source.is_synced());
}

#[test]
fn ntp_time_source_applies_offset_and_reports_synced() {
    let mut source = NtpTimeSource::unsynced();
    let now = 1_700_000_000_000;
    source.sync(measured_offset(&reply_of(now, 10_000), now, now));
    assert!(source.is_synced());

    let local = SystemTime::now()
        .duration_since(UNIX_EPOCH)
        .unwrap()
        .as_millis() as i64;
    let reported = source.now_millis() as i64;
    assert!((reported - (local + 10_000)).abs() < 2_000);
}

#[test]
fn adjusted_reading_stays_in_range() {
    assert_eq!(adjusted_millis(5, -6), 0);
    assert_eq!(adjusted_millis(5, -5), 0);
    assert_eq!(adjusted_millis(5, 7), 12);
    assert_eq!(adjusted_millis(u64::MAX, 1), u64::MAX);
}

#[test]
fn default_servers() {
    assert_eq!(
        default_ntp_servers(),
        vec!["pool.ntp.org:123", "time.cloudflare.com:123", "time.google.com:123"]
    );
}
