use vstd::prelude::*;

verus! {

/// The classified outcome of one probe. Connection failure, an elapsed time
/// budget and a malformed reply all collapse into the single `Offline`
/// variant; the cause is not recorded.
pub enum ProbeOutcome {
    Online {
        players_online: i64,
        players_max: i64,
        version: String,
        motd: String,
    },
    Offline,
}

/// The column values of one observation row, as handed to the store for an
/// append.
pub struct PingRow {
    pub online: bool,
    pub latency_ms: Option<i64>,
    pub players_online: Option<i64>,
    pub players_max: Option<i64>,
    pub version: Option<String>,
    pub motd: Option<String>,
}

/// Row well-formedness: a failed probe stores no occupancy, version or
/// message data.
pub open spec fn ping_row_wf(row: PingRow) -> bool {
    !row.online ==> {
        &&& row.players_online is None
        &&& row.players_max is None
        &&& row.version is None
        &&& row.motd is None
    }
}

/// The row that a probe outcome is persisted as.
pub open spec fn spec_ping_row(outcome: ProbeOutcome) -> PingRow {
    match outcome {
        ProbeOutcome::Online { players_online, players_max, version, motd } => PingRow {
            online: true,
            latency_ms: None,
            players_online: Some(players_online),
            players_max: Some(players_max),
            version: Some(version),
            motd: Some(motd),
        },
        ProbeOutcome::Offline => PingRow {
            online: false,
            latency_ms: None,
            players_online: None,
            players_max: None,
            version: None,
            motd: None,
        },
    }
}

/// Turns a classified probe outcome into the row to append: an online outcome
/// carries its occupancy, version and message, an offline outcome carries
/// nothing beyond the flag.
pub fn ping_row(outcome: ProbeOutcome) -> (row: PingRow)
    ensures
        row == spec_ping_row(outcome),
        ping_row_wf(row),
{
    match outcome {
        ProbeOutcome::Online { players_online, players_max, version, motd } => PingRow {
            online: true,
            latency_ms: None,
            players_online: Some(players_online),
            players_max: Some(players_max),
            version: Some(version),
            motd: Some(motd),
        },
        ProbeOutcome::Offline => PingRow {
            online: false,
            latency_ms: None,
            players_online: None,
            players_max: None,
            version: None,
            motd: None,
        },
    }
}

/// The fixed period of the probing scheduler, in seconds.
pub const SCHED_PERIOD_SECS: u64 = 600;

/// The time budget of one probe, in seconds.
pub const PROBE_TIMEOUT_SECS: u64 = 3;

/// Seconds to wait from `now_secs` until the next scheduler tick. Ticks land
/// on wall-clock boundaries that are whole multiples of the fixed period
/// measured from the epoch, so tick timing is the same across restarts.
pub fn next_tick_wait(now_secs: u64) -> (wait: u64)
    ensures
        1 <= wait <= SCHED_PERIOD_SECS,
        (now_secs + wait) % (SCHED_PERIOD_SECS as int) == 0,
{
    let rem = now_secs % SCHED_PERIOD_SECS;
    SCHED_PERIOD_SECS - rem
}

} // verus!
