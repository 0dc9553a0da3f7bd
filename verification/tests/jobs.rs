use aish::jobs::{
    current_job, format_listing, resolve_job, Job, JobKind, JobSpec, JobState, Jobs, JOB_BUFFER_CAP,
};

#[test]
fn state_labels_match_legacy_strings() {
    assert_eq!(JobState::Running.label(), "running");
    assert_eq!(JobState::Stopped.label(), "stopped");
    assert_eq!(JobState::Done("exited 0".into()).label(), "exited 0");
}

#[test]
fn one_table_is_source_of_truth_for_both_kinds() {
    let mut table: Jobs = Default::default();
    table.push(Job::background(1, "tail -f log".into()));
    table.push(Job::foreground(2, "cargo build".into()));
    assert_eq!(table.len(), 2);
    let kinds: Vec<JobKind> = table.iter().map(|j| j.kind).collect();
    assert!(kinds.contains(&JobKind::Background));
    assert!(kinds.contains(&JobKind::Foreground));
    assert!(table.iter().all(|j| j.status() == "running"));
}

#[test]
fn running_stopped_done_transitions() {
    let mut fg = Job::foreground(1, "sleep 100".into());
    assert_eq!(fg.status(), "running");
    fg.stop();
    assert_eq!(fg.status(), "stopped");
    fg.resume();
    assert_eq!(fg.status(), "running");
    fg.finish("exited 0");
    assert_eq!(fg.status(), "exited 0");
    fg.stop();
    assert_eq!(fg.status(), "exited 0");
    fg.resume();
    assert_eq!(fg.status(), "exited 0");
}

#[test]
fn background_status_and_output_preserved() {
    let mut job = Job::background(7, "server".into());
    assert_eq!(job.kind, JobKind::Background);
    assert_eq!(job.status(), "running");
    assert_eq!(job.output(), "");

    job.push_line("listening on :8080");
    job.push_line("request 1");
    assert_eq!(job.output(), "listening on :8080\nrequest 1\n");

    job.finish("exited 0");
    assert_eq!(job.status(), "exited 0");
}

#[test]
fn background_output_buffer_is_capped() {
    let mut job = Job::background(1, "noisy".into());
    for i in 0..5000 {
        job.push_line(&format!("line {i} ........................................"));
    }
    assert!(job.output().len() <= JOB_BUFFER_CAP);
    assert!(job.output().contains("line 4999"));
}

#[test]
fn background_kill_signals_once() {
    let mut job = Job::background(1, "daemon".into());
    assert!(job.kill());
    assert!(!job.kill());
}

#[test]
fn foreground_has_no_kill_channel() {
    let mut fg = Job::foreground(1, "ls".into());
    assert!(!fg.kill());
}

#[test]
fn job_spec_parses_posix_operands() {
    assert_eq!(JobSpec::parse("%%"), Some(JobSpec::Current));
    assert_eq!(JobSpec::parse("%+"), Some(JobSpec::Current));
    assert_eq!(JobSpec::parse("%1"), Some(JobSpec::Id(1)));
    assert_eq!(JobSpec::parse("3"), Some(JobSpec::Id(3)));
    assert_eq!(JobSpec::parse("%x"), None);
    assert_eq!(JobSpec::parse("foo"), None);
    assert_eq!(JobSpec::parse(""), None);
}

#[test]
fn current_job_prefers_stopped_then_most_recent_active() {
    let mut table: Vec<Job> = vec![
        Job::background(1, "running-old".into()),
        Job::background(2, "running-new".into()),
    ];
    assert_eq!(current_job(&table).unwrap().id, 2);

    table[0].stop();
    assert_eq!(current_job(&table).unwrap().id, 1);

    let mut done: Vec<Job> = vec![Job::background(5, "done".into())];
    done[0].finish("exited 0");
    assert!(current_job(&done).is_none());
}

#[test]
fn resolve_job_by_id_default_and_errors() {
    let running = Job::background(1, "running".into());
    let mut stopped = Job::background(2, "stopped".into());
    stopped.stop();
    let table = vec![running, stopped];

    assert_eq!(resolve_job(&table, Some(JobSpec::Id(1))).unwrap().id, 1);
    assert_eq!(resolve_job(&table, None).unwrap().id, 2);
    assert!(resolve_job(&table, Some(JobSpec::Id(99))).is_err());
    assert!(resolve_job(&[], None).is_err());
    assert_eq!(resolve_job(&table, Some(JobSpec::Id(99))).unwrap_err(), "no such job: 99");
    assert_eq!(resolve_job(&[], Some(JobSpec::Current)).unwrap_err(), "no current job");
}

#[test]
fn format_listing_shows_running_and_stopped_state() {
    let running = Job::background(1, "tail -f log".into());
    let mut stopped = Job::background(2, "sleep 100".into());
    stopped.stop();
    let lines = format_listing(&[running, stopped]);
    assert_eq!(lines[0], "[1] running — tail -f log");
    assert_eq!(lines[1], "[2] stopped — sleep 100");
    assert!(format_listing(&[]).is_empty());
}

#[test]
fn the_cap_cuts_between_characters() {
    let mut job = Job::background(1, "wide".into());
    // 64 002 bytes: one byte, then three-byte characters, then the line feed.
    let line = format!("a{}", "→".repeat(21_333));
    job.push_line(&line);
    let kept = job.output();
    assert_eq!(kept.len(), 64_000);
    assert_eq!(kept, format!("{}\n", "→".repeat(21_333)));
    job.push_line("b");
    let kept = job.output();
    assert_eq!(kept.len(), 63_999);
    assert!(kept.ends_with("→\nb\n"));
}

#[test]
fn process_groups_are_recorded() {
    let mut job = Job::foreground(3, "make".into());
    assert_eq!(job.pgid(), None);
    job.set_pgid(4242);
    assert_eq!(job.pgid(), Some(4242));
    assert!(!job.is_stopped());
    assert!(!job.is_done());
}

#[test]
fn a_sign_before_the_number_names_no_job() {
    assert_eq!(JobSpec::parse("%+5"), None);
    assert_eq!(JobSpec::parse("+5"), None);
    assert_eq!(JobSpec::parse("%-5"), None);
    assert_eq!(JobSpec::parse("%"), None);
    assert_eq!(JobSpec::parse("%07"), Some(JobSpec::Id(7)));
    assert_eq!(JobSpec::parse("99999999999999999999999"), None);
}
