use metrics_sampler::buffer::{CpuSample, RollingBuffer, CAPACITY};
use metrics_sampler::clock::Timestamp;
use metrics_sampler::logrow::{parse_row, LogRow};
use metrics_sampler::metrics::{
    disk_usage, mem_centi_mb_of, percent_centi, process_summary, summary_of, top_processes,
    ProcessInfo, TOP_COUNT,
};
use metrics_sampler::report::{is_log_file, name_le, plan_report, select_recent, ReportPlan};
use metrics_sampler::session::Session;
use metrics_sampler::text::{fixed2_text, parse_fixed2};
use metrics_sampler::trigger::TriggerState;
use metrics_sampler::writer::{append_text, should_write, CADENCE, HEADER};

fn sample(cpu: u64) -> CpuSample {
    CpuSample { timestamp: format!("t{}", cpu), cpu_centi: cpu }
}

fn names(list: &[&str]) -> Vec<String> {
    list.iter().map(|s| s.to_string()).collect()
}

#[test]
fn buffer_never_exceeds_capacity() {
    let mut b = RollingBuffer::new();
    for i in 0..25u64 {
        b.push(sample(i));
        assert!(b.len() <= CAPACITY);
        assert_eq!(b.len(), std::cmp::min((i + 1) as usize, CAPACITY));
    }
    let pts = b.chart_points();
    let expected: Vec<(u32, u64)> = (0..10u32).map(|i| (i, 15 + i as u64)).collect();
    assert_eq!(pts, expected);
}

#[test]
fn buffer_evicts_oldest_on_overflow() {
    let mut b = RollingBuffer::new();
    for i in 0..10u64 {
        b.push(sample(i));
    }
    assert!(b.is_full());
    b.push(sample(100));
    let pts = b.chart_points();
    assert_eq!(pts.len(), 10);
    assert!(pts.iter().all(|p| p.1 != 0));
    assert_eq!(pts[0], (0, 1));
    assert_eq!(pts[9], (9, 100));
}

#[test]
fn buffer_not_full_below_capacity() {
    let mut b = RollingBuffer::new();
    assert!(!b.is_full());
    assert!(b.chart_points().is_empty());
    for i in 0..9u64 {
        b.push(sample(i));
    }
    assert!(!b.is_full());
    b.push(sample(9));
    assert!(b.is_full());
}

#[test]
fn trigger_waits_for_minute_one_then_fires_once() {
    let mut t = TriggerState::new();
    assert!(!t.evaluate(14, 0));
    assert_eq!(t.last_triggered_day, None);
    assert!(t.evaluate(14, 1));
    assert_eq!(t.last_triggered_day, Some(14));
    assert!(!t.evaluate(14, 30));
    assert!(!t.evaluate(14, 59));
}

#[test]
fn trigger_never_fires_on_odd_day() {
    let mut t = TriggerState::new();
    for m in 0..60 {
        assert!(!t.evaluate(15, m));
    }
    assert_eq!(t.last_triggered_day, None);
}

#[test]
fn trigger_rearms_on_a_new_day() {
    let mut t = TriggerState::new();
    assert!(t.evaluate(14, 5));
    assert!(!t.evaluate(15, 5));
    assert!(t.evaluate(16, 1));
    assert!(!t.evaluate(16, 2));
}

#[test]
fn one_row_per_cadence_window() {
    assert_eq!(CADENCE, 60);
    let written: Vec<u64> = (0..600u64).filter(|c| should_write(*c, CADENCE)).collect();
    assert_eq!(written.len(), 10);
    for start in 0..200u64 {
        let n = (start..start + 60).filter(|c| should_write(*c, CADENCE)).count();
        assert_eq!(n, 1);
    }
    assert!(should_write(0, 60));
    assert!(!should_write(59, 60));
    assert!(should_write(120, 60));
}

#[test]
fn header_written_once_per_empty_file() {
    let row = "r1".to_string();
    let first = append_text(0, &row);
    assert_eq!(first, format!("{}\nr1\n", HEADER));
    assert_eq!(HEADER, "timestamp,cpu,memory,disk,top5_processes");
    let mut file = first.clone();
    for i in 0..5 {
        let row = format!("r{}", i + 2);
        let add = append_text(file.len() as u64, &row);
        assert_eq!(add, format!("{}\n", row));
        file.push_str(&add);
    }
    assert_eq!(file.matches(HEADER).count(), 1);
}

#[test]
fn no_log_files_nothing_to_process() {
    assert!(matches!(plan_report(&Vec::new()), ReportPlan::NothingToProcess));
    let other = names(&["notes.txt", ".csv", "data.csvx"]);
    assert!(matches!(plan_report(&other), ReportPlan::NothingToProcess));
    assert!(select_recent(&other).is_empty());
}

#[test]
fn three_logs_two_most_recent_descending() {
    let list = names(&[
        "metrics_2024-05-10.csv",
        "metrics_2024-05-12.csv",
        "metrics_2024-05-14.csv",
    ]);
    let picked = select_recent(&list);
    assert_eq!(picked, names(&["metrics_2024-05-14.csv", "metrics_2024-05-12.csv"]));
    match plan_report(&list) {
        ReportPlan::Generate(files) => assert_eq!(files, picked),
        ReportPlan::NothingToProcess => panic!("expected files"),
    }
}

#[test]
fn selection_ignores_order_and_other_files() {
    let list = names(&[
        "metrics_2024-05-14.csv",
        "readme.md",
        "metrics_2024-05-10.csv",
        "metrics_2024-06-01.csv",
        "metrics_2024-05-12.csv",
    ]);
    assert_eq!(
        select_recent(&list),
        names(&["metrics_2024-06-01.csv", "metrics_2024-05-14.csv"])
    );
}

#[test]
fn single_log_is_passed_alone() {
    let list = names(&["a.txt", "metrics_2024-05-10.csv"]);
    assert_eq!(select_recent(&list), names(&["metrics_2024-05-10.csv"]));
}

#[test]
fn log_names_and_order() {
    assert!(is_log_file("a.csv"));
    assert!(!is_log_file(".csv"));
    assert!(!is_log_file("a.CSV"));
    assert!(name_le("a", "b"));
    assert!(name_le("ab", "ab"));
    assert!(name_le("ab", "abc"));
    assert!(!name_le("abc", "ab"));
    assert!(!name_le("b", "abc"));
}

fn example_row() -> LogRow {
    LogRow {
        timestamp: "2024-05-14 10:01:00".to_string(),
        cpu_centi: 1234,
        mem_centi: 5,
        disk_centi: 10000,
        top5: "\nfoo (PID: 1) - 1.00% | 2.00 MB | \nbar, baz (PID: 2) - 0.50% | 0.25 MB".to_string(),
    }
}

#[test]
fn row_format_exact() {
    let row = example_row();
    assert_eq!(
        row.format(),
        "2024-05-14 10:01:00,12.34,0.05,100.00,\"\nfoo (PID: 1) - 1.00% | 2.00 MB | \nbar, baz (PID: 2) - 0.50% | 0.25 MB\""
    );
}

#[test]
fn row_round_trip() {
    let row = example_row();
    let back = parse_row(&row.format()).expect("row parses");
    assert_eq!(back.timestamp, row.timestamp);
    assert_eq!(back.cpu_centi, 1234);
    assert_eq!(back.mem_centi, 5);
    assert_eq!(back.disk_centi, 10000);
    assert_eq!(back.top5, row.top5);
    let big = LogRow {
        timestamp: "t".to_string(),
        cpu_centi: u64::MAX,
        mem_centi: 0,
        disk_centi: 99,
        top5: String::new(),
    };
    let back = parse_row(&big.format()).expect("row parses");
    assert_eq!(back.cpu_centi, u64::MAX);
    assert_eq!(back.mem_centi, 0);
    assert_eq!(back.disk_centi, 99);
    assert_eq!(back.top5, "");
}

#[test]
fn malformed_rows_rejected() {
    assert!(parse_row("").is_none());
    assert!(parse_row("t,1.2,3.00,4.00,\"a\"").is_none());
    assert!(parse_row("t,01.00,3.00,4.00,\"a\"").is_none());
    assert!(parse_row("t,1.00,3.00,4.00,a").is_none());
    assert!(parse_row("t,1.00,3.00,\"a\"").is_none());
    assert!(parse_row("t,1.00,3.00,4.00,\"").is_none());
    assert!(parse_row("t,1.00,3.00,4.00,\"\"").is_some());
}

#[test]
fn fixed_two_decimals() {
    assert_eq!(fixed2_text(0), "0.00");
    assert_eq!(fixed2_text(5), "0.05");
    assert_eq!(fixed2_text(150), "1.50");
    assert_eq!(fixed2_text(123456), "1234.56");
    assert_eq!(fixed2_text(u64::MAX), "184467440737095516.15");
}

#[test]
fn parse_fixed2_bounds() {
    assert_eq!(parse_fixed2("184467440737095516.15", 0), Some((u64::MAX, 21)));
    assert_eq!(parse_fixed2("184467440737095516.16", 0), None);
    assert_eq!(parse_fixed2("1844674407370955160.00", 0), None);
    assert_eq!(parse_fixed2("x12.34,", 1), Some((1234, 6)));
    assert_eq!(parse_fixed2("0.00", 0), Some((0, 4)));
    assert_eq!(parse_fixed2("00.00", 0), None);
    assert_eq!(parse_fixed2(".00", 0), None);
}

fn ts(year: i32, month: u32, day: u32, hour: u32, minute: u32, second: u32) -> Timestamp {
    Timestamp { year, month, day, hour, minute, second }
}

#[test]
fn timestamp_text_layout() {
    assert_eq!(ts(2024, 2, 29, 23, 59, 59).text(), Some("2024-02-29 23:59:59".to_string()));
    assert_eq!(ts(5, 1, 2, 3, 4, 5).text(), Some("0005-01-02 03:04:05".to_string()));
    assert_eq!(ts(2023, 2, 29, 0, 0, 0).text(), None);
    assert_eq!(ts(2024, 4, 31, 0, 0, 0).text(), None);
    assert_eq!(ts(2024, 13, 1, 0, 0, 0).text(), None);
    assert_eq!(ts(2024, 1, 1, 24, 0, 0).text(), None);
    assert_eq!(ts(2024, 1, 1, 0, 60, 0).text(), None);
    assert_eq!(ts(2024, 1, 1, 0, 0, 60).text(), None);
    assert_eq!(ts(10000, 1, 1, 0, 0, 0).text(), None);
    assert_eq!(ts(-1, 1, 1, 0, 0, 0).text(), None);
}

#[test]
fn log_file_named_by_date() {
    assert_eq!(
        ts(2024, 5, 14, 23, 59, 59).log_file_name(),
        Some("metrics_2024-05-14.csv".to_string())
    );
    assert_eq!(ts(2024, 5, 32, 0, 0, 0).log_file_name(), None);
}

#[test]
fn percentages() {
    assert_eq!(percent_centi(1, 3), 3333);
    assert_eq!(percent_centi(2, 3), 6667);
    assert_eq!(percent_centi(1, 2), 5000);
    assert_eq!(percent_centi(0, 0), 0);
    assert_eq!(percent_centi(7, 0), 0);
    assert_eq!(percent_centi(5, 4), 12500);
    assert_eq!(percent_centi(u64::MAX, 1), u64::MAX);
}

#[test]
fn disk_usage_over_all_disks() {
    assert_eq!(disk_usage(&vec![(100, 25), (300, 75)]), 7500);
    assert_eq!(disk_usage(&Vec::new()), 0);
    assert_eq!(disk_usage(&vec![(0, 0)]), 0);
    assert_eq!(disk_usage(&vec![(100, 150), (100, 50)]), 2500);
}

fn proc_info(name: &str, pid: u32, cpu: u64, mem: u64) -> ProcessInfo {
    ProcessInfo { name: name.to_string(), pid, cpu_centi: cpu, mem_bytes: mem }
}

#[test]
fn top_five_busiest_first_stable() {
    let ps = vec![
        proc_info("a", 1, 5, 0),
        proc_info("b", 2, 9, 0),
        proc_info("c", 3, 9, 0),
        proc_info("d", 4, 1, 0),
        proc_info("e", 5, 7, 0),
        proc_info("f", 6, 3, 0),
        proc_info("g", 7, 8, 0),
    ];
    assert_eq!(TOP_COUNT, 5);
    assert_eq!(top_processes(&ps, TOP_COUNT), vec![1, 2, 6, 4, 0]);
    assert_eq!(top_processes(&ps, 10), vec![1, 2, 6, 4, 0, 5, 3]);
    assert_eq!(top_processes(&Vec::new(), 5), Vec::<usize>::new());
}

#[test]
fn process_summary_text() {
    assert_eq!(mem_centi_mb_of(1048576), 100);
    assert_eq!(mem_centi_mb_of(5243), 1);
    assert_eq!(mem_centi_mb_of(0), 0);
    let ps = vec![proc_info("a", 42, 150, 1048576), proc_info("b", 7, 300, 524288)];
    assert_eq!(
        process_summary(&ps),
        "\nb (PID: 7) - 3.00% | 0.50 MB | \na (PID: 42) - 1.50% | 1.00 MB"
    );
    assert_eq!(summary_of(&ps, &vec![0]), "\na (PID: 42) - 1.50% | 1.00 MB");
    assert_eq!(process_summary(&Vec::new()), "");
}

#[test]
fn session_cadences() {
    let mut s = Session::new();
    let mut rows = Vec::new();
    let mut charts = 0;
    let mut reports = 0;
    for i in 0..121u64 {
        let plan = s.step(14, 1, sample(i));
        if plan.write_row {
            rows.push(i);
        }
        if plan.render_chart {
            charts += 1;
        }
        if plan.generate_reports {
            reports += 1;
        }
    }
    assert_eq!(rows, vec![0, 60, 120]);
    assert_eq!(charts, 121 - 9);
    assert_eq!(reports, 1);
    assert_eq!(s.iteration, 121);
    assert_eq!(s.trigger.last_triggered_day, Some(14));
}
