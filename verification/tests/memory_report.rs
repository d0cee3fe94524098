//! The memory footprint's figures and the report's schedule.

use netflector::memory_report::{
    current_rss_kib, fold_observed, log_report, peak_rss_kib, rss_from_bytes, rss_from_pages,
    ControlEvent, MemoryReporter,
};

#[test]
fn observed_peak_never_decreases() {
    let mut observed = 0u64;
    let first = fold_observed(&mut observed, 1);
    assert!(first >= 1);
    assert!(fold_observed(&mut observed, 0) >= first);
}

#[test]
fn reporter_schedules_the_next_report_an_interval_out() {
    let interval = 30_000_000_000u64;
    let now = 5_000_000_000u64;
    let mut reporter = MemoryReporter::new(Some(interval), now);
    assert_eq!(reporter.next_deadline(), Some(now + interval));
    let later = now + interval;
    reporter.on_deadline(later);
    assert_eq!(reporter.next_deadline(), Some(later + interval));
}

#[test]
fn dump_only_reporter_keeps_no_deadline() {
    let reporter = MemoryReporter::new(None, 5);
    assert_eq!(reporter.next_deadline(), None);
    assert!(reporter.on_control(ControlEvent::Dump));
    assert_eq!(reporter.next_deadline(), None);
}

#[test]
fn current_rss_reads_proc_self_status() {
    let status = "Name:\tnetflector\nVmPeak:\t   9000 kB\nVmRSS:\t    4096 kB\nThreads:\t1\n";
    assert!(current_rss_kib(status).is_some_and(|rss| rss > 0));
    assert_eq!(current_rss_kib(status), Some(4096));
    assert_eq!(current_rss_kib("Name:\tnetflector\n"), None);
}

#[test]
fn peak_rss_is_nonzero_for_the_running_process() {
    assert!(peak_rss_kib(Some(5120), false) > 0);
    assert_eq!(peak_rss_kib(Some(5120), false), 5120);
    // Where the system counts bytes.
    assert_eq!(peak_rss_kib(Some(5_242_880), true), 5120);
    assert_eq!(peak_rss_kib(None, false), 0);
}

#[test]
fn resident_pages_and_bytes_are_told_in_kib() {
    assert_eq!(rss_from_pages(8, 8, 3, 4096), Some(12));
    assert_eq!(rss_from_pages(7, 8, 3, 4096), None);
    assert_eq!(rss_from_bytes(16, 16, 8192), Some(8));
    assert_eq!(rss_from_bytes(0, 16, 8192), None);
}

#[test]
fn the_report_says_what_is_known() {
    assert!(log_report(Some(12), 34).contains("12"));
    assert!(log_report(Some(12), 34).contains("34"));
    assert!(log_report(None, 34).contains("34"));
}
