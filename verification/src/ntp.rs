//! A clock that is held against time servers.
//!
//! Liveness means something only where all nodes agree on roughly the same
//! time. A simple time query (SNTP) measures how far the local clock is off;
//! the offset is added to every reading.

use vstd::prelude::*;
use crate::bytes::{be32, push_be32, read_be32, value32};
use crate::liveness::{system_millis, system_shows, TimeSource};
use crate::text::texts;

verus! {

/// Seconds between the start of 1900, where NTP counts from, and the start
/// of 1970.
pub const NTP_UNIX_EPOCH_DELTA_SECS: u64 = 2_208_988_800;

/// How often the servers are asked again, in seconds.
pub const DEFAULT_POLL_INTERVAL_SECS: u64 = 300;

/// The length of a time packet.
pub const NTP_PACKET_BYTES: usize = 48;

/// The public time servers, to be asked in this order until one answers.
pub fn default_ntp_servers() -> (r: Vec<String>)
    ensures
        texts(r@) == seq![
            "pool.ntp.org:123"@,
            "time.cloudflare.com:123"@,
            "time.google.com:123"@,
        ],
{
    let mut out: Vec<String> = Vec::new();
    out.push("pool.ntp.org:123".to_owned());
    out.push("time.cloudflare.com:123".to_owned());
    out.push("time.google.com:123".to_owned());
    assert(texts(out@) =~= seq![
        "pool.ntp.org:123"@,
        "time.cloudflare.com:123"@,
        "time.google.com:123"@,
    ]);
    out
}

// ---------------------------------------------------------------------
// Timestamps
// ---------------------------------------------------------------------

/// A time since the Unix epoch: seconds, and nanoseconds below a second.
#[derive(Debug, Clone, Copy, PartialEq, Eq, Structural)]
pub struct Timestamp {
    pub secs: u64,
    pub nanos: u32,
}

impl Timestamp {
    /// The nanoseconds stay below a second.
    pub open spec fn wf(self) -> bool {
        self.nanos < 1_000_000_000
    }

    /// Whole milliseconds since the Unix epoch.
    pub open spec fn millis(self) -> int {
        self.secs * 1000 + self.nanos / 1_000_000
    }
}

/// The eight bytes of a timestamp: seconds since 1900 modulo 2^32, and the
/// fraction of a second in units of 2^-32.
pub open spec fn timestamp_bytes(t: Timestamp) -> Seq<u8> {
    be32(((t.secs + NTP_UNIX_EPOCH_DELTA_SECS) % 0x1_0000_0000) as u32) + be32(
        (t.nanos * 0x1_0000_0000 / 1_000_000_000) as u32,
    )
}

/// The timestamp at `pos`. A time before 1970 counts as 1970.
pub open spec fn timestamp_at(buf: Seq<u8>, pos: int) -> Timestamp {
    let secs = value32(buf, pos);
    Timestamp {
        secs: if secs >= NTP_UNIX_EPOCH_DELTA_SECS {
            (secs - NTP_UNIX_EPOCH_DELTA_SECS) as u64
        } else {
            0
        },
        nanos: (value32(buf, pos + 4) * 1_000_000_000 / 0x1_0000_0000) as u32,
    }
}

/// Appends a timestamp.
pub fn write_ntp_timestamp(buf: &mut Vec<u8>, since_unix_epoch: Timestamp)
    requires
        since_unix_epoch.wf(),
        since_unix_epoch.secs + NTP_UNIX_EPOCH_DELTA_SECS <= u64::MAX,
    ensures
        final(buf)@ == old(buf)@ + timestamp_bytes(since_unix_epoch),
{
    let secs: u64 = (since_unix_epoch.secs + NTP_UNIX_EPOCH_DELTA_SECS) % 0x1_0000_0000;
    let frac: u64 = (since_unix_epoch.nanos as u64) * 0x1_0000_0000 / 1_000_000_000;
    push_be32(buf, secs as u32);
    push_be32(buf, frac as u32);
    assert(buf@ =~= old(buf)@ + timestamp_bytes(since_unix_epoch));
}

/// Reads the timestamp at `pos`.
pub fn read_ntp_timestamp(buf: &[u8], pos: usize) -> (r: Timestamp)
    requires
        pos + 8 <= buf@.len(),
    ensures
        r == timestamp_at(buf@, pos as int),
        r.wf(),
{
    let end: usize = buf.len();
    assert(pos + 8 <= end);
    let secs: u64 = read_be32(buf, pos) as u64;
    let frac: u64 = read_be32(buf, pos + 4) as u64;
    let unix_secs: u64 = secs.saturating_sub(NTP_UNIX_EPOCH_DELTA_SECS);
    let nanos: u64 = frac * 1_000_000_000 / 0x1_0000_0000;
    Timestamp { secs: unix_secs, nanos: nanos as u32 }
}

// ---------------------------------------------------------------------
// Asking a server
// ---------------------------------------------------------------------

/// A request: version 4, client mode, and the time of sending at its end.
pub open spec fn request_bytes(sent: Timestamp) -> Seq<u8> {
    seq![0x23u8] + Seq::new(39, |i: int| 0u8) + timestamp_bytes(sent)
}

/// Builds a request that is sent at the given time.
pub fn request_packet(sent: Timestamp) -> (r: Vec<u8>)
    requires
        sent.wf(),
        sent.secs + NTP_UNIX_EPOCH_DELTA_SECS <= u64::MAX,
    ensures
        r@ == request_bytes(sent),
        r@.len() == NTP_PACKET_BYTES,
{
    let mut packet: Vec<u8> = Vec::new();
    packet.push(0x23);
    while packet.len() < 40
        invariant
            1 <= packet@.len() <= 40,
            packet@[0] == 0x23,
            forall|i: int| 1 <= i < packet@.len() ==> packet@[i] == 0,
        decreases 40 - packet.len(),
    {
        packet.push(0);
    }
    assert(packet@ =~= seq![0x23u8] + Seq::new(39, |i: int| 0u8));
    write_ntp_timestamp(&mut packet, sent);
    packet
}

/// Half of `x`, rounded towards zero.
pub open spec fn half(x: int) -> int {
    if x >= 0 {
        x / 2
    } else {
        -((-x) / 2)
    }
}

/// How far the local clock is behind the server's, in milliseconds: half of
/// what the way there and the way back take together, by the clocks.
pub open spec fn clock_offset(sent: int, received: int, replied: int, returned: int) -> int {
    half((received - sent) + (replied - returned))
}

/// How far the local clock is behind the server's, in milliseconds, from
/// four times since the epoch.
pub fn offset_millis(sent: i64, received: i64, replied: i64, returned: i64) -> (r: i64)
    requires
        sent >= 0,
        received >= 0,
        replied >= 0,
        returned >= 0,
    ensures
        r == clock_offset(sent as int, received as int, replied as int, returned as int),
{
    let sum: i128 = (received as i128 - sent as i128) + (replied as i128 - returned as i128);
    if sum >= 0 {
        (sum / 2) as i64
    } else {
        let magnitude: i128 = -sum;
        (-(magnitude / 2)) as i64
    }
}

/// What a reply says of the local clock, in milliseconds behind the
/// server's; `None` where the reply is too short. The request was sent and
/// the reply came in at the given local times.
pub fn measured_offset(reply: &[u8], sent_millis: i64, returned_millis: i64) -> (r: Option<i64>)
    requires
        sent_millis >= 0,
        returned_millis >= 0,
    ensures
        match r {
            Some(offset) => reply@.len() >= NTP_PACKET_BYTES && offset == clock_offset(
                sent_millis as int,
                timestamp_at(reply@, 32).millis(),
                timestamp_at(reply@, 40).millis(),
                returned_millis as int,
            ),
            None => reply@.len() < NTP_PACKET_BYTES,
        },
{
    if reply.len() < NTP_PACKET_BYTES {
        return None;
    }
    let received = read_ntp_timestamp(reply, 32);
    let replied = read_ntp_timestamp(reply, 40);
    let received_millis: i64 = (received.secs as i64) * 1000 + (received.nanos / 1_000_000) as i64;
    let replied_millis: i64 = (replied.secs as i64) * 1000 + (replied.nanos / 1_000_000) as i64;
    Some(offset_millis(sent_millis, received_millis, replied_millis, returned_millis))
}

// ---------------------------------------------------------------------
// The clock
// ---------------------------------------------------------------------

/// The local clock plus an offset that was measured against time servers.
#[derive(Debug, Clone, Copy, PartialEq, Eq)]
pub struct NtpTimeSource {
    offset_millis: i64,
    synced: bool,
}

/// A local reading with an offset, kept within the range of the type.
pub open spec fn adjusted(local: u64, offset: i64) -> int {
    if local + offset < 0 {
        0
    } else if local + offset > u64::MAX {
        u64::MAX as int
    } else {
        local + offset
    }
}

/// A local reading with an offset, kept within the range of the type.
pub fn adjusted_millis(local: u64, offset: i64) -> (r: u64)
    ensures
        r == adjusted(local, offset),
        0 <= local + offset <= u64::MAX ==> r == local + offset,
{
    let sum: i128 = local as i128 + offset as i128;
    if sum < 0 {
        0
    } else if sum > u64::MAX as i128 {
        u64::MAX
    } else {
        sum as u64
    }
}

impl NtpTimeSource {
    /// The offset that is added to the local clock.
    pub closed spec fn offset(self) -> i64 {
        self.offset_millis
    }

    /// Whether a measurement ever succeeded.
    pub closed spec fn spec_synced(self) -> bool {
        self.synced
    }

    /// A clock that has not been measured yet: the local clock as it is.
    pub fn unsynced() -> (r: Self)
        ensures
            r.offset() == 0,
            !r.spec_synced(),
    {
        NtpTimeSource { offset_millis: 0, synced: false }
    }

    /// Whether a measurement ever succeeded.
    pub fn is_synced(&self) -> (r: bool)
        ensures
            r == self.spec_synced(),
    {
        self.synced
    }

    /// Takes what asking one server gave, and returns whether that settles
    /// the round. Where no server answers the last offset stays: it is
    /// better than none.
    pub fn sync(&mut self, measured: Option<i64>) -> (r: bool)
        ensures
            match measured {
                Some(offset) => r && final(self).offset() == offset && final(self).spec_synced(),
                None => !r && *final(self) == *old(self),
            },
    {
        match measured {
            Some(offset) => {
                self.offset_millis = offset;
                self.synced = true;
                true
            },
            None => false,
        }
    }

    /// What the clock shows when the local clock shows `local`.
    pub fn reading_at(&self, local: u64) -> (r: u64)
        ensures
            r == adjusted(local, self.offset()),
            0 <= local + self.offset() <= u64::MAX ==> r == local + self.offset(),
    {
        adjusted_millis(local, self.offset_millis)
    }
}

impl TimeSource for NtpTimeSource {
    fn now_millis(&self) -> (r: u64)
        ensures
            exists|local: u64|
                #[trigger] system_shows(local) && r == adjusted(local, self.offset()),
    {
        let local: u64 = system_millis();
        self.reading_at(local)
    }
}

// ---------------------------------------------------------------------
// Laws
// ---------------------------------------------------------------------

/// A timestamp survives being written and read, to the nanosecond or one
/// less, as long as its seconds fit (into 2036).
pub proof fn law_timestamp_round_trip(front: Seq<u8>, t: Timestamp, back: Seq<u8>)
    requires
        t.wf(),
        t.secs + NTP_UNIX_EPOCH_DELTA_SECS < 0x1_0000_0000,
    ensures
        ({
            let read = timestamp_at(front + timestamp_bytes(t) + back, front.len() as int);
            &&& read.secs == t.secs
            &&& t.nanos - 1 <= read.nanos <= t.nanos
        }),
{
    let secs = ((t.secs + NTP_UNIX_EPOCH_DELTA_SECS) % 0x1_0000_0000) as u32;
    let frac = (t.nanos * 0x1_0000_0000 / 1_000_000_000) as u32;
    let all = front + timestamp_bytes(t) + back;
    assert(all =~= front + be32(secs) + (be32(frac) + back));
    crate::bytes::law_be32_round_trip(front, secs, be32(frac) + back);
    assert(all =~= (front + be32(secs)) + be32(frac) + back);
    crate::bytes::law_be32_round_trip(front + be32(secs), frac, back);
    assert((front + be32(secs)).len() == front.len() + 4);
}

/// With the same delay on both ways the offset is exactly the difference of
/// the clocks.
pub proof fn law_offset_exact(sent: int, delay: int, held: int, difference: int)
    ensures
        clock_offset(
            sent,
            sent + delay + difference,
            sent + delay + held + difference,
            sent + delay + held + delay,
        ) == difference,
{
}

/// Wherever the sum is in range, the reading is the local clock plus the
/// offset, whether the local clock is behind or ahead. Elsewhere it is the end
/// of the range that the sum is beyond.
pub proof fn law_reading_adds_offset(local: u64, offset: i64)
    ensures
        0 <= local + offset <= 0xffff_ffff_ffff_ffff ==> adjusted(local, offset) == local + offset,
        local + offset < 0 ==> adjusted(local, offset) == 0,
        local + offset > 0xffff_ffff_ffff_ffff ==> adjusted(local, offset)
            == 0xffff_ffff_ffff_ffff,
{
}

/// After an exchange with the same delay on both ways, the clock shows what
/// the server's shows, however far and in which direction they differ.
pub proof fn law_clock_agrees_with_server(
    sent: int,
    delay: int,
    held: int,
    local: u64,
    server: u64,
)
    requires
        -0x8000_0000_0000_0000 <= server - local <= 0x7fff_ffff_ffff_ffff,
    ensures
        ({
            let difference = server - local;
            let measured = clock_offset(
                sent,
                sent + delay + difference,
                sent + delay + held + difference,
                sent + delay + held + delay,
            );
            adjusted(local, measured as i64) == server
        }),
{
    law_offset_exact(sent, delay, held, server - local);
}

/// The offset is half of what both ways take together by the two clocks; an
/// odd sum is rounded towards zero.
pub proof fn law_offset_is_half(sent: int, received: int, replied: int, returned: int)
    ensures
        ({
            let both = (received - sent) + (replied - returned);
            let offset = clock_offset(sent, received, replied, returned);
            &&& both >= 0 ==> 2 * offset <= both <= 2 * offset + 1
            &&& both <= 0 ==> 2 * offset - 1 <= both <= 2 * offset
        }),
{
}

/// A timestamp is read as seconds since 1900 and a fraction in units of
/// 2^-32; the nanoseconds are the fraction, rounded down.
pub proof fn law_timestamp_read(buf: Seq<u8>, pos: int)
    requires
        0 <= pos,
        pos + 8 <= buf.len(),
    ensures
        ({
            let t = timestamp_at(buf, pos);
            let secs = value32(buf, pos);
            let frac = value32(buf, pos + 4);
            &&& secs >= 2_208_988_800 ==> t.secs == secs - 2_208_988_800
            &&& secs < 2_208_988_800 ==> t.secs == 0
            &&& t.nanos * 0x1_0000_0000 <= frac * 1_000_000_000 < (t.nanos + 1) * 0x1_0000_0000
        }),
{
}

/// A timestamp is written as seconds since 1900, modulo 2^32, and as many
/// units of 2^-32 seconds as its nanoseconds hold.
pub proof fn law_timestamp_written(t: Timestamp)
    requires
        t.wf(),
    ensures
        ({
            let bytes = timestamp_bytes(t);
            let secs = value32(bytes, 0);
            let frac = value32(bytes, 4);
            &&& bytes.len() == 8
            &&& (t.secs + 2_208_988_800 - secs) % 0x1_0000_0000 == 0
            &&& frac * 1_000_000_000 <= t.nanos * 0x1_0000_0000 < (frac + 1) * 1_000_000_000
        }),
{
    let none: Seq<u8> = Seq::empty();
    let secs = ((t.secs + NTP_UNIX_EPOCH_DELTA_SECS) % 0x1_0000_0000) as u32;
    let frac = (t.nanos * 0x1_0000_0000 / 1_000_000_000) as u32;
    assert(timestamp_bytes(t) =~= none + be32(secs) + be32(frac));
    crate::bytes::law_be32_round_trip(none, secs, be32(frac));
    assert(timestamp_bytes(t) =~= be32(secs) + be32(frac) + none);
    crate::bytes::law_be32_round_trip(be32(secs), frac, none);
}

/// The milliseconds of a time are its seconds and nanoseconds, rounded down
/// to a whole number.
pub proof fn law_millis_round_down(t: Timestamp)
    ensures
        t.millis() * 1_000_000 <= t.secs * 1_000_000_000 + t.nanos < (t.millis() + 1) * 1_000_000,
{
}

/// A request says version 4 and client mode in its first byte and the time of
/// sending in its last eight; all between is zero.
pub proof fn law_request_layout(sent: Timestamp, i: int)
    requires
        1 <= i < 40,
    ensures
        request_bytes(sent).len() == 48,
        request_bytes(sent)[0] == 4 * 8 + 3,
        request_bytes(sent)[i] == 0,
        request_bytes(sent).skip(40) == timestamp_bytes(sent),
{
    assert(request_bytes(sent).skip(40) =~= timestamp_bytes(sent));
}

} // verus!
