use server_pulse::downsample::{compress_segment, downsample_series, history_response};
use server_pulse::model::{PingResult, QueryRange};

fn stamp(secs: i64) -> String {
    chrono::DateTime::from_timestamp(secs, 0).unwrap().to_rfc3339()
}

fn obs(id: i64, secs: i64, online: bool, players: Option<i64>) -> PingResult {
    PingResult {
        id,
        server_id: 1,
        pinged_at: stamp(secs),
        online,
        players_online: players,
        players_max: if online { Some(20) } else { None },
        version: if online { Some(String::from("1.21")) } else { None },
        motd: if online { Some(String::from("hello")) } else { None },
    }
}

#[test]
fn empty_input_gives_empty_output() {
    for range in [QueryRange::Day, QueryRange::Week, QueryRange::Month] {
        let out = history_response(Vec::new(), range, None);
        assert!(out.is_empty());
        let out = history_response(Vec::new(), range, Some(7));
        assert!(out.is_empty());
    }
}

#[test]
fn day_range_returns_raw_rows_unmodified() {
    let raw = vec![
        obs(1, 0, true, Some(3)),
        obs(2, 600, false, None),
        obs(3, 1200, true, Some(4)),
        obs(4, 90_000, true, Some(5)),
    ];
    let expected = raw.clone();
    let out = history_response(raw, QueryRange::Day, None);
    assert_eq!(out, expected);
}

#[test]
fn incremental_request_returns_raw_rows_unmodified() {
    // A since_id request is never downsampled, whatever the range, and
    // whatever the sequence length.
    let mut raw = Vec::new();
    for i in 0..50 {
        raw.push(obs(i, i * 60, i % 2 == 0, Some(i)));
    }
    let expected = raw.clone();
    let out = history_response(raw, QueryRange::Month, Some(10));
    assert_eq!(out, expected);
}

#[test]
fn short_segment_of_two_kept_verbatim() {
    let raw = vec![obs(1, 1000, false, None), obs(2, 1600, false, None)];
    let expected = raw.clone();
    let out = history_response(raw, QueryRange::Week, None);
    assert_eq!(out, expected);
}

#[test]
fn short_segment_of_many_collapses_to_edges() {
    let raw = vec![
        obs(1, 0, true, Some(1)),
        obs(2, 300, true, Some(2)),
        obs(3, 600, true, Some(3)),
        obs(4, 900, true, Some(4)),
    ];
    let out = history_response(raw.clone(), QueryRange::Week, None);
    assert_eq!(out, vec![raw[0].clone(), raw[3].clone()]);
}

#[test]
fn long_offline_segment_collapses_to_edges() {
    let raw = vec![
        obs(1, 0, false, None),
        obs(2, 600, false, None),
        obs(3, 1200, false, None),
        obs(4, 1800, false, None),
        obs(5, 2400, false, None),
    ];
    let out = history_response(raw.clone(), QueryRange::Week, None);
    assert_eq!(out, vec![raw[0].clone(), raw[4].clone()]);
}

#[test]
fn long_online_segment_chunk_averages() {
    // Week range: one-hour chunks. Members every ten minutes from t=0 with
    // occupancies 1..=7; the member at t=3600 completes the first chunk, so
    // one point is emitted with the truncated mean (1+..+7)/7 = 4, stamped
    // with that member's timestamp but otherwise copying the t=0 member.
    // The members at t=4200 and t=4800 form a trailing partial chunk averaged
    // to 15, emitted as a copy of the new reference member (t=3600) stamped
    // with the chunk's last-seen time, t=4800.
    let mut raw = Vec::new();
    for i in 0..7 {
        raw.push(obs(i, i * 600, true, Some(i + 1)));
    }
    raw.push(obs(7, 4200, true, Some(10)));
    raw.push(obs(8, 4800, true, Some(20)));
    let out = history_response(raw.clone(), QueryRange::Week, None);
    assert_eq!(out.len(), 2);
    assert_eq!(out[0].id, raw[0].id);
    assert_eq!(out[0].players_online, Some(4));
    assert_eq!(out[0].pinged_at, stamp(3600));
    assert_eq!(out[1].id, raw[6].id);
    assert_eq!(out[1].players_online, Some(15));
    assert_eq!(out[1].pinged_at, stamp(4800));
}

#[test]
fn chunk_average_truncates_and_zeroes_absent_counts() {
    // One online segment longer than the blip threshold but shorter than a
    // week chunk: a single trailing chunk, averaged over all members with an
    // absent occupancy counted as zero: (6+0+7)/3 = 4 (truncated). The point
    // copies the reference member (t=0) but is stamped with the chunk's
    // last-seen time, t=2000.
    let raw = vec![
        obs(1, 0, true, Some(6)),
        obs(2, 1000, true, None),
        obs(3, 2000, true, Some(7)),
    ];
    let out = history_response(raw.clone(), QueryRange::Week, None);
    assert_eq!(out.len(), 1);
    assert_eq!(out[0].id, raw[0].id);
    assert_eq!(out[0].players_online, Some(4));
    assert_eq!(out[0].pinged_at, raw[2].pinged_at);
}

#[test]
fn month_range_uses_six_hour_chunks() {
    // Members every two hours for a day, occupancy 2 throughout. The member
    // at t=21600 completes the first six-hour chunk and the one at t=43200
    // the second; each flush is stamped with its completing member's time.
    let mut raw = Vec::new();
    for i in 0..7 {
        raw.push(obs(i, i * 7200, true, Some(2)));
    }
    let out = history_response(raw.clone(), QueryRange::Month, None);
    assert_eq!(out.len(), 2);
    assert_eq!(out[0].players_online, Some(2));
    assert_eq!(out[0].pinged_at, stamp(21600));
    assert_eq!(out[0].id, raw[0].id);
    assert_eq!(out[1].players_online, Some(2));
    assert_eq!(out[1].pinged_at, stamp(43200));
    assert_eq!(out[1].id, raw[3].id);
}

#[test]
fn blip_scenario_keeps_five_of_six_points() {
    // Observations at t=0,60,120 online with 5 players, then t=1300,1360
    // offline, then t=3000 online with 10 players: three segments, all within
    // the blip threshold. The first (three members) collapses to its edges,
    // the second (two members) and third (one member) are kept verbatim.
    let raw = vec![
        obs(1, 0, true, Some(5)),
        obs(2, 60, true, Some(5)),
        obs(3, 120, true, Some(5)),
        obs(4, 1300, false, None),
        obs(5, 1360, false, None),
        obs(6, 3000, true, Some(10)),
    ];
    let out = history_response(raw.clone(), QueryRange::Week, None);
    let expected = vec![
        raw[0].clone(),
        raw[2].clone(),
        raw[3].clone(),
        raw[4].clone(),
        raw[5].clone(),
    ];
    assert_eq!(out, expected);
}

#[test]
fn malformed_timestamp_falls_back_to_epoch() {
    // A timestamp chrono cannot parse is treated as the epoch sentinel, so
    // the segment below spans 2000 seconds and is chunk-averaged rather than
    // kept verbatim; the emitted point copies the malformed reference member
    // but is stamped with the chunk's last-seen time.
    let mut first = obs(1, 0, true, Some(6));
    first.pinged_at = String::from("not-a-timestamp");
    let raw = vec![first.clone(), obs(2, 1000, true, Some(0)), obs(3, 2000, true, Some(6))];
    let out = history_response(raw, QueryRange::Week, None);
    assert_eq!(out.len(), 1);
    assert_eq!(out[0].id, 1);
    assert_eq!(out[0].players_online, Some(4));
    assert_eq!(out[0].pinged_at, stamp(2000));
}

#[test]
fn real_timestamps_drive_segment_durations() {
    // Three online members a full hour apart: with genuinely parsed
    // timestamps the segment is long and chunk-averaged into two points; a
    // degenerate parse would make every duration zero and keep the edge
    // members verbatim instead.
    let raw = vec![
        obs(1, 0, true, Some(3)),
        obs(2, 3600, true, Some(6)),
        obs(3, 7200, true, Some(9)),
    ];
    let out = history_response(raw.clone(), QueryRange::Week, None);
    assert_eq!(out.len(), 2);
    assert_eq!(out[0].players_online, Some(4));
    assert_eq!(out[0].pinged_at, stamp(3600));
    assert_eq!(out[1].players_online, Some(9));
    assert_eq!(out[1].pinged_at, stamp(7200));
}

#[test]
fn downsample_series_directly_compresses() {
    let raw = vec![
        obs(1, 0, true, Some(1)),
        obs(2, 100, true, Some(2)),
        obs(3, 200, true, Some(3)),
    ];
    let out = downsample_series(&raw, 3600, 1200);
    assert_eq!(out, vec![raw[0].clone(), raw[2].clone()]);
}

#[test]
fn compress_segment_keeps_short_run_edges() {
    let raw = vec![
        obs(1, 0, true, Some(1)),
        obs(2, 100, true, Some(2)),
        obs(3, 200, true, Some(3)),
    ];
    let times = vec![0, 100, 200];
    let mut out = Vec::new();
    compress_segment(&raw, &times, 0, 2, true, 3600, 1200, &mut out);
    assert_eq!(out, vec![raw[0].clone(), raw[2].clone()]);
}

#[test]
fn compress_segment_inverted_range_appends_nothing() {
    let raw = vec![obs(1, 0, true, Some(1))];
    let times = vec![0];
    let mut out = vec![obs(9, 50, false, None)];
    compress_segment(&raw, &times, 1, 0, true, 3600, 1200, &mut out);
    assert_eq!(out.len(), 1);
    assert_eq!(out[0].id, 9);
}
