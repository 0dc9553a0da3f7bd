use aish::goal::{
    delivery_lines, fmt_duration, goal_condition_from_directive, goal_directive, judge_message,
    judge_reply, judge_request, judge_verdict, render_goal_hierarchy, route_next, subtree_percent,
    subtree_progress, truncate_condition, turn_run_id, AfterCheck, AfterWork, Goal, GoalLoop,
    GoalStatus, Status, Step, TaskRef, TurnStart, MAX_TURNS,
};
use aish::json;


#[test]
fn fmt_duration_buckets() {
    assert_eq!(fmt_duration(0), "0s");
    assert_eq!(fmt_duration(45), "45s");
    assert_eq!(fmt_duration(59), "59s");
    assert_eq!(fmt_duration(4 * 60 + 12), "4m12s");
    assert_eq!(fmt_duration(60 + 5), "1m05s");
    assert_eq!(
        fmt_duration(3600 + 3 * 60 + 9),
        "1h03m"
    );
    assert_eq!(fmt_duration(3600), "1h00m");
}

#[test]
fn truncate_condition_ellipsizes() {
    assert_eq!(truncate_condition("short goal"), "short goal");
    let long = "a".repeat(80);
    let out = truncate_condition(&long);
    assert!(out.ends_with('…'));
    assert_eq!(out.chars().count(), 61); // 60 + ellipsis
}

fn goal_with(status: Status, phase: Step, turn_started: bool) -> GoalLoop {
    GoalLoop {
        condition: "Complete the work".to_string(),
        started_ms: 1_000,
        status,
        turns: 3,
        last_reason: Some("not yet".to_string()),
        cancel: false,
        turn_started_ms: turn_started.then_some(2_000),
        phase,
    }
}

const NOW: u64 = 65_000;

#[test]
fn test_attach_goal_shows_history() {
    let g = goal_with(Status::Active, Step::Checking, true);
    let lines = g.attach_backfill(NOW);
    let joined = lines.join("\n");
    assert!(
        joined.contains("Complete the work"),
        "backfill shows the goal condition: {joined}"
    );
    assert!(
        joined.contains("goal [active"),
        "backfill shows the status line: {joined}"
    );
    assert!(
        joined.contains("turn 3"),
        "backfill shows turn progress: {joined}"
    );
    assert!(
        joined.contains("last check: not yet"),
        "backfill shows the last verifier check: {joined}"
    );
}

#[test]
fn status_line_active_shows_phase_and_turn() {
    let g = goal_with(Status::Active, Step::Checking, true);
    let line = g.status_line(NOW);
    assert!(line.contains("goal [active · checking]"), "got: {line}");
    assert!(line.contains("turn 3"), "got: {line}");
    assert!(line.contains("this turn /"), "got: {line}");
    assert!(line.contains("total"), "got: {line}");
    assert!(line.contains("Complete the work"), "got: {line}");
    assert!(line.contains("last check: not yet"), "got: {line}");
    assert!(!line.contains('\n'), "must be one line: {line}");
}

#[test]
fn status_line_finished_omits_phase_and_perturn() {
    let g = goal_with(Status::Achieved, Step::Idle, false);
    let line = g.status_line(NOW);
    assert!(line.contains("goal [achieved]"), "got: {line}");
    assert!(line.contains("3 turn(s)"), "got: {line}");
    assert!(line.contains("total"), "got: {line}");
    assert!(!line.contains("this turn"), "got: {line}");
    assert!(!line.contains("checking"), "got: {line}");
    assert!(!line.contains("working"), "got: {line}");
}

#[test]
fn batch_oracle_loop_invariants_unchanged() {
    assert_eq!(MAX_TURNS, 25, "MAX_TURNS backstop must not drift");

    assert!(Step::Idle == Step::Idle);
    assert!(Step::Working != Step::Checking);

    let mut g = goal_with(Status::Active, Step::Working, true);
    assert!(g.is_active(), "active loop reports active");
    g.set(Status::Achieved, Some("evidence met".into()));
    assert!(!g.is_active(), "achieved loop is no longer active");
    assert!(g.status_line(NOW).contains("achieved"), "{}", g.status_line(NOW));

    let mut f = goal_with(Status::Active, Step::Checking, true);
    f.set(Status::Failed, Some("backstop".into()));
    assert!(!f.is_active(), "failed loop is no longer active");
}


#[test]
fn new_goal_defaults_are_active_and_empty() {
    let g = Goal::new("Ship TASK-277");
    assert_eq!(g.title, "Ship TASK-277");
    assert_eq!(g.status, GoalStatus::Active);
    assert!(g.milestones.is_empty());
    assert!(g.blockers.is_empty());
    assert!(g.linked_tasks.is_empty());
    assert!(g.parent_id.is_none());
    assert!(!g.is_subgoal());
    assert!(!g.id.is_empty());
    assert!(g.created_at > 0);
    assert_eq!(g.created_at, g.updated_at);
}

#[test]
fn subgoal_carries_parent() {
    let parent = Goal::new("Parent");
    let child = Goal::subgoal("Child", &parent.id);
    assert!(child.is_subgoal());
    assert_eq!(child.parent_id.as_deref(), Some(parent.id.as_str()));
}

#[test]
fn mutators_bump_updated_at_and_collections() {
    let mut g = Goal::new("G");
    let created = g.updated_at;
    g.updated_at -= 5; // simulate an older stamp so touch() is observable
    g.add_milestone("m1");
    g.add_blocker("b1");
    g.link_task(TaskRef::with_title("TASK-277", "Persistent goals"));
    assert_eq!(g.milestones.len(), 1);
    assert_eq!(g.blockers.len(), 1);
    assert_eq!(g.linked_tasks.len(), 1);
    assert!(g.updated_at >= created);
}

#[test]
fn link_task_dedups_on_key() {
    let mut g = Goal::new("G");
    g.link_task(TaskRef::new("TASK-277"));
    g.link_task(TaskRef::with_title("TASK-277", "dup"));
    assert_eq!(g.linked_tasks.len(), 1);
}

#[test]
fn progress_and_open_blocker_counts() {
    let mut g = Goal::new("G");
    g.add_milestone("m1");
    g.add_milestone("m2");
    g.milestones[0].done = true;
    g.add_blocker("b1");
    g.add_blocker("b2");
    g.blockers[1].resolved = true;
    assert_eq!(g.milestone_progress(), (1, 2));
    assert_eq!(g.open_blockers(), 1);
}

#[test]
fn status_token_roundtrip() {
    for s in [
        GoalStatus::Active,
        GoalStatus::Paused,
        GoalStatus::Completed,
        GoalStatus::Abandoned,
    ] {
        assert_eq!(GoalStatus::from_token(s.as_str()), s);
    }
    assert_eq!(GoalStatus::from_token("wat"), GoalStatus::Active);
    assert_eq!(GoalStatus::from_token(""), GoalStatus::Active);
    assert_eq!(GoalStatus::from_token(" COMPLETED "), GoalStatus::Completed);
}

#[test]
fn terminal_status_flags() {
    assert!(GoalStatus::Completed.is_terminal());
    assert!(GoalStatus::Abandoned.is_terminal());
    assert!(!GoalStatus::Active.is_terminal());
    assert!(!GoalStatus::Paused.is_terminal());
}

#[test]
fn prompt_summary_shows_current_milestone_progress_and_blockers() {
    let mut g = Goal::new("Ship goal-context injection");
    g.add_milestone("design");
    g.add_milestone("build");
    g.add_milestone("open PR");
    g.milestones[0].done = true; // 1 of 3 done → current = "build", 33%
    g.add_blocker("waiting on review");
    let s = g.prompt_summary();
    assert!(s.contains("Goal: Ship goal-context injection"), "{s}");
    assert!(s.contains("current milestone: build"), "{s}");
    assert!(s.contains("1/3 done"), "{s}");
    assert!(s.contains("33%"), "{s}");
    assert!(s.contains("Open blockers: waiting on review"), "{s}");
}

#[test]
fn prompt_summary_omits_empty_sections_and_caps_blockers() {
    let g = Goal::new("Bare goal");
    assert_eq!(g.prompt_summary(), "Goal: Bare goal");

    let mut done = Goal::new("Done goal");
    done.add_milestone("a");
    done.milestones[0].done = true;
    let ds = done.prompt_summary();
    assert!(ds.contains("milestones 1/1 done (100%)"), "{ds}");
    assert!(!ds.contains("current milestone"), "{ds}");

    let mut many = Goal::new("Blocked goal");
    for i in 0..5 {
        many.add_blocker(&format!("blocker {i}"));
    }
    let ms = many.prompt_summary();
    assert!(ms.contains("(+2 more)"), "{ms}");
}

#[test]
fn prompt_summary_truncates_long_title() {
    let g = Goal::new(&"x".repeat(120));
    let s = g.prompt_summary();
    assert!(s.contains('…'), "long title must be ellipsized: {s}");
    assert!(!s.contains(&"x".repeat(120)), "full long title must not appear");
}

#[test]
fn progress_percent_rounds_and_handles_empty() {
    let mut g = Goal::new("P");
    assert_eq!(g.progress_percent(), 0, "no milestones ⇒ 0%");
    g.add_milestone("a");
    g.add_milestone("b");
    g.add_milestone("c");
    assert_eq!(g.progress_percent(), 0);
    g.milestones[0].done = true; // 1/3 = 33.33 → 33
    assert_eq!(g.progress_percent(), 33);
    g.milestones[1].done = true; // 2/3 = 66.67 → 67 (half-up)
    assert_eq!(g.progress_percent(), 67);
    g.milestones[2].done = true; // 3/3 → 100
    assert_eq!(g.progress_percent(), 100);
}

#[test]
fn next_open_milestone_picks_first_undone() {
    let mut g = Goal::new("N");
    assert!(g.next_open_milestone().is_none(), "none when empty");
    g.add_milestone("first");
    g.add_milestone("second");
    g.milestones[0].done = true;
    assert_eq!(g.next_open_milestone().unwrap().title, "second");
    g.milestones[1].done = true;
    assert!(g.next_open_milestone().is_none(), "none when all done");
}

#[test]
fn subtree_progress_folds_in_descendants() {
    let mut root = Goal::new("root");
    root.add_milestone("r1"); // 0/1
    let mut a = Goal::subgoal("a", &root.id);
    a.add_milestone("a1");
    a.milestones[0].done = true; // 1/1
    let mut grand = Goal::subgoal("grand", &a.id);
    grand.add_milestone("g1");
    grand.add_milestone("g2");
    grand.milestones[0].done = true; // 1/2
    let b = Goal::subgoal("b", &root.id); // 0/0

    let all = vec![root.clone(), a, grand, b];
    assert_eq!(subtree_progress(&root.id, &all), (2, 4));
    assert_eq!(subtree_percent(&root.id, &all), 50);
    assert_eq!(subtree_progress("ghost", &all), (0, 0));
    assert_eq!(subtree_percent("ghost", &all), 0);
}

#[test]
fn is_actionable_gates_on_status_blockers_and_completion() {
    let mut g = Goal::new("work");
    g.add_milestone("m");
    assert!(g.is_actionable(), "active + unblocked + incomplete ⇒ actionable");

    g.add_blocker("waiting");
    assert!(!g.is_actionable(), "open blocker ⇒ not actionable");
    g.blockers[0].resolved = true;
    assert!(g.is_actionable(), "cleared blocker ⇒ actionable again");

    g.milestones[0].done = true; // 100%
    assert!(!g.is_actionable(), "fully complete ⇒ not actionable");

    let mut paused = Goal::new("later");
    paused.add_milestone("m");
    paused.set_status(GoalStatus::Paused);
    assert!(!paused.is_actionable(), "paused ⇒ not actionable");
}

#[test]
fn route_next_picks_first_actionable_in_order() {
    let mut done = Goal::new("done");
    done.add_milestone("x");
    done.milestones[0].done = true;

    let mut blocked = Goal::new("blocked");
    blocked.add_milestone("y");
    blocked.add_blocker("dep");

    let mut ready = Goal::new("ready");
    ready.add_milestone("z");

    let goals = vec![done, blocked, ready];
    assert_eq!(route_next(&goals).unwrap().title, "ready");

    let mut only_paused = Goal::new("p");
    only_paused.set_status(GoalStatus::Paused);
    assert!(route_next(&[only_paused]).is_none());
    assert!(route_next(&[]).is_none());
}

#[test]
fn complete_linked_task_flips_once() {
    let mut g = Goal::new("G");
    g.link_task(TaskRef::new("TASK-282"));
    g.updated_at -= 5;
    let before = g.updated_at;
    assert!(g.complete_linked_task("TASK-282"), "first flip changes it");
    assert_eq!(g.linked_task_progress(), (1, 1));
    assert!(g.updated_at >= before, "touch bumps updated_at");
    assert!(!g.complete_linked_task("TASK-282"));
    assert!(!g.complete_linked_task("TASK-999"));
}

#[test]
fn progress_percent_blends_milestones_and_tasks() {
    let mut g = Goal::new("G");
    assert_eq!(g.progress_percent(), 0);
    g.add_milestone("m1");
    g.add_milestone("m2");
    g.link_task(TaskRef::new("TASK-282"));
    g.link_task(TaskRef::new("TASK-283"));
    assert_eq!(g.progress_percent(), 0);
    g.milestones[0].done = true;
    g.complete_linked_task("TASK-282");
    assert_eq!(g.progress_percent(), 50);
}

#[test]
fn rollup_status_completes_when_all_done() {
    let mut g = Goal::new("G");
    g.link_task(TaskRef::new("TASK-282"));
    assert!(!g.rollup_status());
    assert_eq!(g.status, GoalStatus::Active);
    g.complete_linked_task("TASK-282");
    assert!(g.rollup_status(), "all tasks done → Completed");
    assert_eq!(g.status, GoalStatus::Completed);
    assert_eq!(g.progress_percent(), 100);
    assert!(!g.rollup_status());
}

#[test]
fn rollup_status_ignores_empty_goal() {
    let mut g = Goal::new("G");
    assert!(!g.rollup_status());
    assert_eq!(g.status, GoalStatus::Active);
    assert_eq!(g.progress_percent(), 0);
}

#[test]
fn test_workers_list_shows_goal_hierarchy() {
    let mut goal = Goal::new("ship hierarchies");
    goal.link_task(TaskRef::new("TASK-280"));
    goal.link_task(TaskRef::new("TASK-281"));
    let workers = vec![
        ("w_abc123".to_string(), "implement TASK-280 board sync".to_string()),
        ("w_def456".to_string(), "TASK-281 render tree".to_string()),
    ];
    let tree = render_goal_hierarchy(&goal, &workers).expect("hierarchy for a linked goal");
    assert!(
        tree.contains("goal: ship hierarchies [2 children]"),
        "got: {tree}"
    );
    assert!(tree.contains("├─ w_abc123 (TASK-280)"), "got: {tree}");
    assert!(tree.contains("└─ w_def456 (TASK-281)"), "got: {tree}");

    let mut solo = Goal::new("solo");
    solo.link_task(TaskRef::new("TASK-999"));
    let tree2 = render_goal_hierarchy(&solo, &[]).expect("hierarchy with no workers");
    assert!(tree2.contains("[1 child]"), "got: {tree2}");
    assert!(tree2.contains("TASK-999 (no active worker)"), "got: {tree2}");

    assert!(render_goal_hierarchy(&Goal::new("empty"), &[]).is_none());
}

#[test]
fn goal_directive_round_trips_condition() {
    let cond = "make the tests green\nacross the board";
    let first = goal_directive(cond, None);
    assert_eq!(
        goal_condition_from_directive(&first).as_deref(),
        Some(cond),
        "first-turn directive should round-trip the condition"
    );
    let retry = goal_directive(cond, Some("still 3 tests failing"));
    assert_eq!(
        goal_condition_from_directive(&retry).as_deref(),
        Some(cond),
        "re-tried directive should recover the identical condition"
    );
    assert_eq!(
        goal_condition_from_directive(&first),
        goal_condition_from_directive(&retry),
        "every turn of one goal shares a grouping key"
    );
    assert!(goal_condition_from_directive("fix the flaky CI run").is_none());
}

#[test]
fn a_pursuit_works_checks_and_delivers() {
    let mut g = GoalLoop::new("green tests".into(), 0);
    assert_eq!(g.start_notice(), "started — green tests");
    match g.next_turn(None, 10) {
        TurnStart::Work { turn, directive, notice } => {
            assert_eq!(turn, 1);
            assert_eq!(directive, goal_directive("green tests", None));
            assert_eq!(notice, "turn 1: working…");
        }
        other => panic!("{other:?}"),
    }
    assert_eq!(g.work_done(None), AfterWork::Check("turn 1: checking…".into()));
    assert_eq!(g.judged(Ok((false, "2 fail".into()))), AfterCheck::Retry("2 fail".into()));
    g.next_turn(Some("2 fail"), 20);
    g.work_done(None);
    assert_eq!(
        g.judged(Err("http 500".into())),
        AfterCheck::Retry("could not verify this turn: http 500".into())
    );
    g.next_turn(None, 30);
    g.work_done(None);
    assert_eq!(
        g.judged(Ok((true, "all pass".into()))),
        AfterCheck::Deliver { turns: 3, reason: "all pass".into() }
    );
    assert!(!g.is_active());
    assert_eq!(
        delivery_lines(3, "all pass"),
        ["\x1b[2m── goal achieved (3 turn(s)) ──\x1b[0m", "\x1b[2mall pass\x1b[0m"]
    );
}

#[test]
fn a_pursuit_gives_up_fails_or_is_cleared() {
    let mut g = GoalLoop::new("x".into(), 0);
    for _ in 0..MAX_TURNS {
        assert!(matches!(g.next_turn(None, 0), TurnStart::Work { .. }));
    }
    assert_eq!(
        g.next_turn(None, 0),
        TurnStart::GaveUp("stopped — hit the 25-turn backstop without meeting the goal".into())
    );
    assert_eq!(g.turns, MAX_TURNS);
    assert!(!g.is_active());

    let mut g = GoalLoop::new("x".into(), 0);
    g.next_turn(None, 0);
    assert_eq!(g.work_done(Some("boom".into())), AfterWork::Failed("failed — boom".into()));
    assert!(!g.is_active());

    let mut g = GoalLoop::new("x".into(), 0);
    g.next_turn(None, 0);
    g.clear();
    assert_eq!(g.work_done(None), AfterWork::Stopped);
    assert_eq!(g.next_turn(None, 0), TurnStart::Stopped);
    assert!(g.status_line(5_000).starts_with("goal [cleared] · 1 turn(s) · 5s total · x"));
}

#[test]
fn the_judge_is_asked_and_read() {
    assert_eq!(judge_message("c", "w"), "GOAL:\nc\n\nWORK OUTPUT:\nw");
    let body = judge_request("m", json::parse("\"sys\"").unwrap(), "c", "w");
    assert_eq!(body.str_member("model"), Some("m"));
    assert!(json::to_compact(&body).contains("WORK OUTPUT"));

    assert_eq!(judge_verdict("{\"met\": true, \"reason\": \"ok\"}"), Ok((true, "ok".into())));
    assert!(judge_verdict("not json").unwrap_err().contains("(got: not json)"));
    let reply = json::parse("{\"content\":[{\"type\":\"text\",\"text\":\"hello\"}]}").unwrap();
    assert_eq!(judge_reply(&reply).unwrap(), "hello");
    let id = turn_run_id();
    assert!(id.starts_with("goal-"));
    assert_eq!(id.chars().count(), 41);
    assert_ne!(id, turn_run_id());
}

#[test]
fn a_description_is_the_only_change() {
    let g = Goal::new("ship it");
    let before = g.clone();
    let g = g.with_description("by Friday");
    assert_eq!(g.description, "by Friday");
    assert_eq!(Goal { description: before.description.clone(), ..g }, before);
}

#[test]
fn identifiers_have_the_form_of_random_ones() {
    let id: Vec<char> = Goal::new("x").id.chars().collect();
    assert_eq!(id.len(), 36);
    for (i, c) in id.iter().enumerate() {
        match i {
            8 | 13 | 18 | 23 => assert_eq!(*c, '-'),
            14 => assert_eq!(*c, '4'),
            19 => assert!("89ab".contains(*c)),
            _ => assert!("0123456789abcdef".contains(*c)),
        }
    }
}

#[test]
fn a_goal_rolls_up_only_when_every_item_is_done() {
    let mut g = Goal::new("two hundred");
    for i in 0..200 {
        g.add_milestone(&format!("m{i}"));
    }
    for m in g.milestones.iter_mut().take(199) {
        m.done = true;
    }
    assert_eq!(g.progress_percent(), 100);
    assert!(g.is_actionable(), "one milestone is still open");
    assert!(!g.rollup_status_at(7));
    assert_eq!(g.status, GoalStatus::Active);
    g.milestones[199].done = true;
    assert!(!g.is_actionable());
    assert!(g.rollup_status_at(7));
    assert_eq!(g.status, GoalStatus::Completed);
    assert_eq!(g.updated_at, 7);
}

#[test]
fn the_status_stays_on_one_line() {
    let mut g = GoalLoop::new("first\nsecond\r\nthird".to_string(), 0);
    g.set(Status::Active, Some("no\nnot yet".to_string()));
    let line = g.status_line(5_000);
    assert_eq!(
        line,
        "goal [active · starting] · turn 0 · 5s total · first second  third · last check: no not yet"
    );
    assert_eq!(truncate_condition("a\nb"), "a b");
    assert!(!line.contains("this turn"));
    g.next_turn(None, 6_000);
    assert!(g.status_line(8_000).contains("2s this turn / 8s total"));
    g.set(Status::Failed, None);
    let done = g.status_line(8_000);
    assert!(done.starts_with("goal [failed] · 1 turn(s) · 8s total · first"), "{done}");
    assert!(!done.contains("this turn"));
}

#[test]
fn changes_are_stamped_with_the_given_time() {
    let mut g = Goal::made("g", "id".to_string(), 1);
    g.touch_at(2);
    assert_eq!((g.created_at, g.updated_at), (1, 2));
    let m = aish::goal::Milestone { id: "m".to_string(), title: "t".to_string(), done: false };
    assert_eq!(g.push_milestone(m, 3).title, "t");
    assert_eq!((g.milestones.len(), g.updated_at), (1, 3));
    let b = aish::goal::Blocker { id: "b".to_string(), description: "d".to_string(), resolved: false };
    assert_eq!(g.push_blocker(b, 4).description, "d");
    assert_eq!((g.blockers.len(), g.updated_at), (1, 4));
    g.link_task_at(TaskRef::new("TASK-1"), 5);
    g.link_task_at(TaskRef::new("TASK-1"), 6);
    assert_eq!((g.linked_tasks.len(), g.updated_at), (1, 5));
    assert!(g.complete_linked_task_at("TASK-1", 7));
    assert!(!g.complete_linked_task_at("TASK-1", 8));
    assert_eq!(g.updated_at, 7);
    g.set_status_at(GoalStatus::Paused, 9);
    assert_eq!((g.status, g.updated_at), (GoalStatus::Paused, 9));
    g.touch();
    assert!(g.updated_at > 9);
}

#[test]
fn subtree_progress_does_not_depend_on_the_order() {
    let goal = |id: &str, parent: Option<&str>, done: usize, open: usize| {
        let mut g = Goal::made(id, id.to_string(), 0);
        g.parent_id = parent.map(String::from);
        for i in 0..done + open {
            g.add_milestone("m");
            g.milestones[i].done = i < done;
        }
        g
    };
    let all = || {
        vec![
            goal("root", None, 1, 1),
            goal("kid", Some("root"), 0, 2),
            goal("grandkid", Some("kid"), 3, 0),
            goal("other", None, 9, 9),
        ]
    };
    let mut backwards = all();
    backwards.reverse();
    assert_eq!(subtree_progress("root", &all()), (4, 7));
    assert_eq!(subtree_progress("root", &backwards), (4, 7));
    assert_eq!(subtree_progress("kid", &backwards), (3, 5));
    assert_eq!(subtree_progress("nobody", &all()), (0, 0));
}

#[test]
fn a_summary_has_two_lines_at_most() {
    let mut g = Goal::new("a\ntitle");
    g.add_milestone("first\nstep");
    assert_eq!(g.prompt_summary().lines().count(), 1);
    assert!(g.prompt_summary().starts_with("Goal: a title — current milestone: first step (0/1"));
    for i in 0..5 {
        g.add_blocker(&format!("blocked\nby {i}"));
    }
    let s = g.prompt_summary();
    assert_eq!(s.lines().count(), 2);
    assert!(s.ends_with("blocked by 0; blocked by 1; blocked by 2 (+2 more)"), "{s}");
}
