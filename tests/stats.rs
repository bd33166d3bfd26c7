use shooter::cli_args::CliArgs;
use shooter::stats::{SummaryStatistics, WorkerStats};
use shooter::text::parse_decimal;
use shooter::utils::format_received_data_value;

#[test]
fn summary_rps_is_all_requests_over_duration() {
    let workers: Vec<WorkerStats> = (0..4).map(|_| WorkerStats::new(3, 10, 0, 0, 0)).collect();
    let s = SummaryStatistics::new(workers);
    assert_eq!(s.rps, 4 * 10 / 3);
}

#[test]
fn summary_totals() {
    let workers = vec![
        WorkerStats::new(2, 100, 1, 5, 1000),
        WorkerStats::new(2, 50, 2, 0, 24),
    ];
    let s = SummaryStatistics::new(workers);
    assert_eq!(s.rps, 75);
    assert_eq!(s.total_errors, 3);
    assert_eq!(s.non_200_300_requests, 5);
    assert_eq!(s.total_data_received, 1024);
    assert_eq!(s.workers_stats.len(), 2);
}

#[test]
fn summary_of_no_duration() {
    let s = SummaryStatistics::new(vec![WorkerStats::new(0, 7, 0, 0, 0)]);
    assert_eq!(s.rps, 0);
}

#[test]
fn summary_totals_do_not_overflow() {
    let workers = vec![
        WorkerStats::new(1, u32::MAX, u32::MAX, u32::MAX, usize::MAX),
        WorkerStats::new(1, u32::MAX, u32::MAX, u32::MAX, usize::MAX),
    ];
    let s = SummaryStatistics::new(workers);
    assert_eq!(s.rps, 2 * u32::MAX as u128);
    assert_eq!(s.total_data_received, 2 * usize::MAX as u128);
}

#[test]
fn byte_counts() {
    assert_eq!(format_received_data_value(0), "0 B");
    assert_eq!(format_received_data_value(999), "999 B");
    assert_eq!(format_received_data_value(1000), "1000 B");
    assert_eq!(format_received_data_value(1001), "1.00 KB");
    assert_eq!(format_received_data_value(1234), "1.23 KB");
    assert_eq!(format_received_data_value(20_500), "20.50 KB");
    assert_eq!(format_received_data_value(1_000_000), "1000.00 KB");
    assert_eq!(format_received_data_value(1_500_000), "1.50 MB");
    assert_eq!(format_received_data_value(123_456_789), "123.46 MB");
}

#[test]
fn decimal_numerals() {
    assert_eq!(parse_decimal("0042", 0, 100), Some(42));
    assert_eq!(parse_decimal(":8000", 1, 65535), Some(8000));
    assert_eq!(parse_decimal("101", 0, 100), None);
    assert_eq!(parse_decimal("", 0, 100), None);
    assert_eq!(parse_decimal("1a", 0, 100), None);
    assert_eq!(parse_decimal("99999999999999999999999", 0, u64::MAX), None);
}

#[test]
fn cli_args_record() {
    let a = CliArgs::new(2, Some("X-A: 1".to_string()), 100, 5, "localhost".to_string());
    assert_eq!(a.threads, 2);
    assert_eq!(a.header, Some("X-A: 1".to_string()));
    assert_eq!(a.connections, 100);
    assert_eq!(a.duration, 5);
    assert_eq!(a.url, "localhost");
}
