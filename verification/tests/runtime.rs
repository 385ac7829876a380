use recentlydivorced::evidence::Evidence;
use recentlydivorced::graph::{augment, graph_summary, session_for, GraphDocument};
use recentlydivorced::hooks::{
    response_check, trusted_hooks, HookEntry, HookError, ResponseCheck, RpcReply,
};
use recentlydivorced::install::{bootstrap_refusal, runs_codex, InstallError};
use recentlydivorced::refresh::{cached_projection, row_plan, CachedSummary, Fingerprint, RowPlan};
use recentlydivorced::runtime::{
    activity_update, cache_needs_reset, ActivityEvent, choose_codex, label_for, paths_plan, stale_lock_cutoff,
    unix_seconds, unix_time, Estimate, HomeSource, PathsError, PathsPlan, TAIL_BYTES,
};
use recentlydivorced::InstallRoot;

fn document(objective: Option<&str>, next: Option<&str>, phase: Option<&str>) -> GraphDocument {
    GraphDocument {
        objective: objective.map(str::to_string),
        next: next.map(str::to_string),
        phase: phase.map(str::to_string),
    }
}

#[test]
fn graph_summary_cuts_each_field() {
    let long = "o".repeat(300);
    let line = graph_summary(&document(Some(&long), None, Some("behavior"))).unwrap();
    assert_eq!(line, format!("graph objective: {}; next: ; phase: behavior", "o".repeat(240)));
    assert_eq!(graph_summary(&document(Some(""), None, Some(""))), None);
    let context = graph_summary(&document(Some("obj"), Some("next"), Some("behavior"))).unwrap();
    assert!(context.contains("obj"));
    assert!(context.len() <= 400);
}

#[test]
fn sessions_follow_aliases_only_when_the_table_exists() {
    assert_eq!(session_for("alias", true, Some("session".to_string())), "session");
    assert_eq!(session_for("alias", true, None), "alias");
    assert_eq!(session_for("canonical", false, Some("other".to_string())), "canonical");
}

#[test]
fn augment_puts_context_first_and_bounds_the_capsule() {
    let capsule = "c".repeat(2000);
    let out = augment(Some("graph objective: x"), &capsule);
    assert!(out.starts_with("graph objective: x\nccc"));
    assert_eq!(out.chars().count(), "graph objective: x\n".len() + 1100);
    assert_eq!(augment(None, &capsule).chars().count(), 1500);
    let wide = "g".repeat(1495);
    assert_eq!(augment(Some(&wide), "capsule").chars().count(), 1500);
}

fn hook(plugin: Option<&str>, key: Option<&str>, hash: Option<&str>) -> HookEntry {
    HookEntry {
        plugin_id: plugin.map(str::to_string),
        key: key.map(str::to_string),
        current_hash: hash.map(str::to_string),
    }
}

#[test]
fn only_our_complete_hooks_are_trusted() {
    let hooks = vec![
        hook(Some("other@plugin"), Some("k0"), Some("h0")),
        hook(Some("recentlydivorced@recentlydivorced"), Some("k1"), Some("h1")),
        hook(Some("recentlydivorced@recentlydivorced"), None, Some("h2")),
        hook(Some("recentlydivorced@recentlydivorced"), Some("k3"), Some("h3")),
    ];
    assert_eq!(
        trusted_hooks(&hooks).unwrap(),
        vec![
            ("k1".to_string(), "h1".to_string()),
            ("k3".to_string(), "h3".to_string())
        ]
    );
    assert_eq!(
        trusted_hooks(&vec![hook(None, Some("k"), Some("h"))]).unwrap_err(),
        HookError::NotDiscovered
    );
}

#[test]
fn responses_are_matched_by_id() {
    let reply = |id: Option<u64>, has_error: bool| RpcReply { id, has_error };
    assert_eq!(response_check(&reply(Some(2), false), 2), ResponseCheck::Accept);
    assert_eq!(response_check(&reply(Some(2), true), 2), ResponseCheck::Fail);
    assert_eq!(response_check(&reply(Some(1), true), 2), ResponseCheck::Skip);
    assert_eq!(response_check(&reply(None, false), 2), ResponseCheck::Skip);
}

#[test]
fn install_root_is_three_levels_above_the_manager() {
    let found =
        InstallRoot::locate("/opt/recentlydivorced/manager/0.1.0/recentlydivorced".to_string())
            .unwrap();
    assert_eq!(found.root, "/opt/recentlydivorced");
    assert_eq!(found.manager, "/opt/recentlydivorced/manager/0.1.0/recentlydivorced");
    assert_eq!(
        InstallRoot::locate("/recentlydivorced".to_string()).unwrap_err(),
        InstallError::NotBeneathCurrent
    );
}

#[test]
fn manager_answers_by_invocation() {
    assert!(runs_codex("codex"));
    assert!(!runs_codex("/usr/bin/codex"));
    assert_eq!(
        bootstrap_refusal(true, false),
        "bootstrap implementation is not installed yet"
    );
    assert_eq!(
        bootstrap_refusal(false, false),
        "RecentlyDivorced is installed through its curl bootstrap; run codex normally"
    );
}

#[test]
fn paths_prefer_codex_home_then_home() {
    assert_eq!(
        paths_plan(true, true, false),
        Ok(PathsPlan { home: HomeSource::CodexHome, plugin_data_from_env: false })
    );
    assert_eq!(
        paths_plan(false, true, true),
        Ok(PathsPlan { home: HomeSource::HomeDotCodex, plugin_data_from_env: true })
    );
    assert_eq!(paths_plan(false, false, true), Err(PathsError::NoHome));
}

#[test]
fn the_first_existing_codex_binary_wins() {
    let candidates = vec![
        ("/a/codex".to_string(), false),
        ("/b/codex".to_string(), true),
        ("/c/codex".to_string(), true),
    ];
    assert_eq!(choose_codex(&candidates), "/b/codex");
    assert_eq!(choose_codex(&vec![("/a/codex".to_string(), false)]), "codex");
}

#[test]
fn clock_locks_and_generations() {
    assert!(unix_time() > 1_600_000_000);
    assert_eq!(stale_lock_cutoff(100_000), 78_400);
    assert!(cache_needs_reset(None));
    assert!(cache_needs_reset(Some("source-ladder-v1")));
    assert!(!cache_needs_reset(Some("source-ladder-v2")));
}

#[test]
fn prompts_queue_their_activity() {
    let event = |prompt: &str| ActivityEvent {
        session_id: "session".to_string(),
        prompt: prompt.to_string(),
    };
    let update = activity_update(&event("  please   fix the login page [Image #1] ")).unwrap();
    assert_eq!(update.queued, "please fix the login page");
    assert_eq!(update.label, "Fix login page");
    assert!(activity_update(&event("thanks")).is_none());
}

#[test]
fn later_labels_replace_earlier_ones() {
    let labels = vec![
        ("a".to_string(), "first".to_string()),
        ("b".to_string(), "other".to_string()),
        ("a".to_string(), "second".to_string()),
    ];
    assert_eq!(label_for(&labels, "a").as_deref(), Some("second"));
    assert_eq!(label_for(&labels, "c"), None);
}

#[test]
fn estimate_counts_labelable_tails() {
    let mut estimate = Estimate::new();
    estimate.add(true, Some(10));
    estimate.add(true, Some(1_000_000));
    estimate.add(false, Some(5));
    estimate.add(true, None);
    assert_eq!(estimate.count, 3);
    assert_eq!(estimate.bytes, 10 + TAIL_BYTES);
    assert_eq!(estimate.capsule_chars(), 4500);
}

fn fingerprint(length: i64) -> Fingerprint {
    Fingerprint { dev: 1, inode: 2, length }
}

fn cached(activity: &str) -> CachedSummary {
    CachedSummary {
        fingerprint: fingerprint(10),
        label: "cached label".to_string(),
        activity: activity.to_string(),
    }
}

fn evidence(activity: &str) -> Evidence {
    Evidence {
        capsule: "capsule".to_string(),
        activity: activity.to_string(),
    }
}

#[test]
fn unchanged_rows_show_their_cached_label() {
    let c = cached("activity");
    assert_eq!(cached_projection(Some(&c), fingerprint(10), None).as_deref(), Some("cached label"));
    assert_eq!(cached_projection(Some(&c), fingerprint(10), Some("")).as_deref(), Some("cached label"));
    assert_eq!(cached_projection(Some(&c), fingerprint(11), None), None);
    assert_eq!(cached_projection(Some(&c), fingerprint(10), Some("typing")), None);
    assert_eq!(cached_projection(Some(&cached("")), fingerprint(10), None), None);
    assert_eq!(cached_projection(None, fingerprint(10), None), None);
}

#[test]
fn rows_keep_seed_or_queue_a_job() {
    match row_plan("t".into(), "/p".into(), fingerprint(11), Some(cached("same")), None, evidence("same"), false) {
        RowPlan::Keep { label, activity } => {
            assert_eq!(label, "cached label");
            assert_eq!(activity, "same");
        }
        _ => panic!("an unchanged activity keeps its label"),
    }
    match row_plan("t".into(), "/p".into(), fingerprint(10), Some(cached("")), None, evidence("new"), false) {
        RowPlan::Keep { activity, .. } => assert_eq!(activity, "new"),
        _ => panic!("a quiet row is seeded"),
    }
    match row_plan("t".into(), "/p".into(), fingerprint(11), Some(cached("old")), Some("x"), evidence("new"), true) {
        RowPlan::Changed(job) => {
            assert_eq!(job.prior.as_deref(), Some("cached label"));
            assert_eq!(job.length, 11);
            assert_eq!(job.activity, "new");
        }
        _ => panic!("a new activity is relabelled"),
    }
    match row_plan("t".into(), "/p".into(), fingerprint(11), None, None, evidence("new"), true) {
        RowPlan::Initial(job) => assert_eq!(job.prior, None),
        _ => panic!("first pass"),
    }
    match row_plan("t".into(), "/p".into(), fingerprint(11), None, None, evidence("new"), false) {
        RowPlan::Changed(job) => assert_eq!(job.id, "t"),
        _ => panic!("after the first pass"),
    }
}

#[test]
fn clock_readings_become_unix_seconds() {
    assert_eq!(unix_seconds(Some(1_700_000_000)), 1_700_000_000);
    assert_eq!(unix_seconds(None), 0);
    assert_eq!(unix_seconds(Some(u64::MAX)), -1);
}
