use aish::db::CoordinatorRow;
use aish::dispatch_stats::{insights, parse_sqlite_ts, render, summarize, DispatchStats};

fn row(phase: &str, created: Option<&str>, beat: Option<&str>) -> CoordinatorRow {
    CoordinatorRow {
        run_id: "r".into(),
        task: "t".into(),
        phase: phase.into(),
        result: None,
        error: None,
        session_id: None,
        session_name: None,
        created_at: created.map(String::from),
        heartbeat_at: beat.map(String::from),
    }
}

#[test]
fn parses_sqlite_timestamp_both_separators() {
    assert_eq!(parse_sqlite_ts("2024-01-01 00:00:00"), Some(1_704_067_200));
    assert_eq!(parse_sqlite_ts("2024-01-01T00:00:00Z"), Some(1_704_067_200));
    assert_eq!(parse_sqlite_ts("2024-01-01 00:00:30.5"), Some(1_704_067_230));
    assert_eq!(parse_sqlite_ts("1970-01-01 00:00:00"), Some(0));
    assert_eq!(parse_sqlite_ts("garbage"), None);
    assert_eq!(parse_sqlite_ts("2024-13-01 00:00:00"), None);
}

#[test]
fn counts_outcomes_and_running() {
    let rows = vec![
        row("done", Some("2024-01-01 00:00:00"), Some("2024-01-01 00:00:30")),
        row("failed", Some("2024-01-01 00:00:00"), Some("2024-01-01 00:10:00")),
        row("coordinating", None, None),
        row("awaiting_batch", None, None),
    ];
    let refs: Vec<&CoordinatorRow> = rows.iter().collect();
    let st = summarize(&refs);
    assert_eq!(st.dispatched, 4);
    assert_eq!(st.done, 1);
    assert_eq!(st.failed, 1);
    assert_eq!(st.running, 2);
    assert_eq!(st.awaiting_batch, 1);
    assert_eq!(st.timed, 2);
    // completion = terminal/dispatched = 2/4.
    let rate = (st.done + st.failed) as f64 / st.dispatched as f64;
    assert!((rate - 0.5).abs() < 1e-9);
}

#[test]
fn latency_stats_and_quick_flag() {
    let rows = vec![
        row("done", Some("2024-01-01 00:00:00"), Some("2024-01-01 00:00:30")),
        row("done", Some("2024-01-01 00:00:00"), Some("2024-01-01 00:02:00")),
        row("done", Some("2024-01-01 00:00:00"), Some("2024-01-01 00:10:00")),
    ];
    let refs: Vec<&CoordinatorRow> = rows.iter().collect();
    let st = summarize(&refs);
    assert_eq!(st.timed, 3);
    assert_eq!(st.min_secs(), Some(30));
    assert_eq!(st.max_secs(), Some(600));
    assert_eq!(st.median_secs(), Some(120));
    assert_eq!(st.mean_secs(), Some(250));
    assert_eq!(st.quick, 1);
    assert_eq!(st.bucket_lt_1m, 1);
    assert_eq!(st.bucket_1_5m, 1);
    assert_eq!(st.bucket_5_15m, 1);
    assert_eq!(st.bucket_gt_15m, 0);
}

#[test]
fn negative_latency_clamped_to_zero() {
    let rows = vec![row("done", Some("2024-01-01 00:01:00"), Some("2024-01-01 00:00:00"))];
    let refs: Vec<&CoordinatorRow> = rows.iter().collect();
    let st = summarize(&refs);
    assert_eq!(st.latencies, vec![0]);
    assert_eq!(st.quick, 1);
}

#[test]
fn over_offload_insight_fires_on_mostly_quick() {
    let rows = vec![
        row("done", Some("2024-01-01 00:00:00"), Some("2024-01-01 00:00:10")),
        row("done", Some("2024-01-01 00:00:00"), Some("2024-01-01 00:00:20")),
        row("done", Some("2024-01-01 00:00:00"), Some("2024-01-01 00:00:30")),
    ];
    let refs: Vec<&CoordinatorRow> = rows.iter().collect();
    let st = summarize(&refs);
    let tips = insights(&st);
    assert!(tips.iter().any(|t| t.contains("over-offloading")));
}

#[test]
fn empty_scope_renders_placeholder() {
    let st = summarize(&[]);
    let lines = render(&st, "this session", 0, 0);
    assert_eq!(lines.len(), 1);
    assert!(lines[0].contains("no background jobs"));
}

#[test]
fn render_includes_core_sections_when_populated() {
    let rows = vec![row("done", Some("2024-01-01 00:00:00"), Some("2024-01-01 00:05:00"))];
    let refs: Vec<&CoordinatorRow> = rows.iter().collect();
    let st = summarize(&refs);
    let blob = render(&st, "all sessions", 100, 0).join("\n");
    assert!(blob.contains("outcomes:"));
    assert!(blob.contains("latency:"));
    assert!(blob.contains("buckets:"));
    assert!(blob.contains("inline?:"));
}

#[test]
fn rendered_lines_are_exact() {
    let rows = vec![
        row("done", Some("2024-01-01 00:00:00"), Some("2024-01-01 00:05:00")),
        row("awaiting_batch", None, None),
    ];
    let refs: Vec<&CoordinatorRow> = rows.iter().collect();
    let lines = render(&summarize(&refs), "all", 50, 0);
    assert!(lines[1].starts_with("  outcomes:  ✓ 1 done · ✗ 0 failed · ⏳ 1 running (1 awaiting batch) · completion 50%"));
    assert_eq!(lines[3], "  buckets:   <1m 0 · 1–5m 0 · 5–15m 1 · 15m+ 0");
    assert_eq!(lines[4], "  inline?:   0 of 1 completed in ≤45s (0% likely answerable inline)");
}

#[test]
fn leap_days_and_ancient_dates_count() {
    assert_eq!(parse_sqlite_ts("2024-02-29 00:00:00"), Some(1_709_164_800));
    assert_eq!(parse_sqlite_ts("2024-03-01 00:00:00"), Some(1_709_251_200));
    assert_eq!(parse_sqlite_ts("1969-12-31 23:59:59"), Some(-1));
    assert_eq!(parse_sqlite_ts("2000-01-01 00:00:00"), Some(946_684_800));
}

#[test]
fn figures_add_up_on_an_even_count() {
    let rows = vec![
        row("failed", Some("2024-01-01 00:00:00"), Some("2024-01-01 00:00:45")),
        row("done", Some("2024-01-01 00:00:00"), Some("2024-01-01 00:00:46")),
        row("failed", Some("2024-01-01 00:00:00"), Some("2024-01-01 01:00:00")),
        row("failed", None, Some("2024-01-01 00:00:00")),
    ];
    let refs: Vec<&CoordinatorRow> = rows.iter().collect();
    let st = summarize(&refs);
    assert_eq!(st.done + st.failed + st.running, st.dispatched);
    assert_eq!(
        st.bucket_lt_1m + st.bucket_1_5m + st.bucket_5_15m + st.bucket_gt_15m,
        st.timed
    );
    assert_eq!(st.latencies, vec![45, 46, 3600]);
    assert_eq!(st.quick, 1);
    assert!(insights(&st).iter().any(|t| t.contains("failure rate is high")));
    let none = DispatchStats::default();
    assert_eq!(none.min_secs(), None);
    assert_eq!(none.max_secs(), None);
    assert_eq!(none.mean_secs(), None);
    assert_eq!(none.median_secs(), None);
}

#[test]
fn timestamps_are_read_leniently() {
    let same = [
        "2024-02-29 12:34:56",
        "2024-02-29T12:34:56",
        "2024-02-29T12:34:56Z",
        "2024-02-29 12:34:56.5",
        "2024-02-29 12:34:56.123456",
    ];
    for s in same {
        assert_eq!(parse_sqlite_ts(s), Some(1_709_164_800 + 12 * 3600 + 34 * 60 + 56), "{s}");
    }
    let day = 1_709_164_800;
    for (s, seconds) in [
        ("2024-02-29 12:34", day + 12 * 3600 + 34 * 60),
        ("2024-02-29-01 12:34:56", day + 12 * 3600 + 34 * 60 + 56),
        ("2024-02-29 12:34:56:00", day + 12 * 3600 + 34 * 60 + 56),
        ("2024-02-29 24:00:00", day + 86_400),
        ("2024-02-29 23:59:60", day + 86_400),
        ("2024-02-29 99:00:00", day + 99 * 3600),
        ("2024-02-29 -1:00:00", day - 3600),
        ("2024-02-31 00:00:00", day + 2 * 86_400),
    ] {
        assert_eq!(parse_sqlite_ts(s), Some(seconds), "{s}");
    }
    for s in [
        "2024-02 12:34:56",
        "2024-02-29 12",
        "2024-13-01 12:00:00",
        "2024-00-01 12:00:00",
        "2024-02-32 12:00:00",
        "2024-02-00 12:00:00",
        "2024-02-29 12:00:",
        "9223372036854775807-01-01 00:00:00",
        "2024-02-29",
    ] {
        assert_eq!(parse_sqlite_ts(s), None, "{s}");
    }
}
