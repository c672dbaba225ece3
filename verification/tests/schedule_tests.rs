use server_pulse::schedule::{next_tick_wait, ping_row, ProbeOutcome};

#[test]
fn ticks_align_to_period_boundaries() {
    assert_eq!(next_tick_wait(0), 600);
    assert_eq!(next_tick_wait(1), 599);
    assert_eq!(next_tick_wait(599), 1);
    assert_eq!(next_tick_wait(600), 600);
    assert_eq!(next_tick_wait(601), 599);
    assert_eq!(next_tick_wait(1_700_000_123), 1_700_000_400 - 1_700_000_123);
    for now in [0u64, 17, 599, 600, 12_345_678] {
        let wait = next_tick_wait(now);
        assert!(1 <= wait && wait <= 600);
        assert_eq!((now + wait) % 600, 0);
    }
}

#[test]
fn offline_outcome_stores_no_detail_fields() {
    let row = ping_row(ProbeOutcome::Offline);
    assert!(!row.online);
    assert_eq!(row.latency_ms, None);
    assert_eq!(row.players_online, None);
    assert_eq!(row.players_max, None);
    assert_eq!(row.version, None);
    assert_eq!(row.motd, None);
}

#[test]
fn online_outcome_stores_its_details() {
    let row = ping_row(ProbeOutcome::Online {
        players_online: 7,
        players_max: 20,
        version: String::from("1.21"),
        motd: String::from("A server"),
    });
    assert!(row.online);
    assert_eq!(row.latency_ms, None);
    assert_eq!(row.players_online, Some(7));
    assert_eq!(row.players_max, Some(20));
    assert_eq!(row.version, Some(String::from("1.21")));
    assert_eq!(row.motd, Some(String::from("A server")));
}
