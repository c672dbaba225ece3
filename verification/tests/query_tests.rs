use server_pulse::model::QueryRange;
use server_pulse::query::{
    chunk_seconds, new_server_acceptable, range_from_tag, resolved_window, should_downsample,
    window_seconds,
};

#[test]
fn range_tags_resolve_with_day_default() {
    assert_eq!(range_from_tag(&Some(String::from("week"))), QueryRange::Week);
    assert_eq!(range_from_tag(&Some(String::from("month"))), QueryRange::Month);
    assert_eq!(range_from_tag(&Some(String::from("day"))), QueryRange::Day);
    assert_eq!(range_from_tag(&Some(String::from("bogus"))), QueryRange::Day);
    assert_eq!(range_from_tag(&None), QueryRange::Day);
}

#[test]
fn window_widths_match_their_ranges() {
    assert_eq!(window_seconds(QueryRange::Day), 86_400);
    assert_eq!(window_seconds(QueryRange::Week), 604_800);
    assert_eq!(window_seconds(QueryRange::Month), 2_592_000);
}

#[test]
fn incremental_requests_get_no_window() {
    assert_eq!(resolved_window(QueryRange::Week, Some(42)), None);
    assert_eq!(resolved_window(QueryRange::Week, None), Some(604_800));
    assert_eq!(resolved_window(QueryRange::Day, None), Some(86_400));
}

#[test]
fn only_wide_plain_requests_are_downsampled() {
    assert!(should_downsample(QueryRange::Week, None));
    assert!(should_downsample(QueryRange::Month, None));
    assert!(!should_downsample(QueryRange::Day, None));
    assert!(!should_downsample(QueryRange::Week, Some(1)));
    assert!(!should_downsample(QueryRange::Month, Some(1)));
}

#[test]
fn chunk_widths_match_their_ranges() {
    assert_eq!(chunk_seconds(QueryRange::Week), 3_600);
    assert_eq!(chunk_seconds(QueryRange::Month), 21_600);
    assert_eq!(chunk_seconds(QueryRange::Day), 900);
}

#[test]
fn server_registration_validation() {
    assert!(new_server_acceptable(&String::from("mc"), Some(25565)));
    assert!(new_server_acceptable(&String::from("mc"), None));
    assert!(new_server_acceptable(&String::from("mc"), Some(1)));
    assert!(!new_server_acceptable(&String::from("mc"), Some(0)));
    assert!(!new_server_acceptable(&String::from("mc"), Some(-3)));
    assert!(!new_server_acceptable(&String::from(""), Some(25565)));
}
