use recentlydivorced::jobs::{
    batches, collect_labels, label_prompt, Job, LabelSetError, ModelLabel, INITIAL_MODEL,
    UPDATE_MODEL,
};
use recentlydivorced::resilient::{run_model_resilient, run_numbers_fit, Attempt, ResilientRun, Step};

fn job(id: &str, capsule_len: usize, prior: Option<&str>) -> Job {
    Job {
        id: id.to_string(),
        path: format!("/tmp/{id}.jsonl"),
        dev: 1,
        inode: 2,
        length: 3,
        capsule: "c".repeat(capsule_len),
        activity: String::new(),
        prior: prior.map(str::to_string),
    }
}

fn ids(batch: &[Job]) -> Vec<&str> {
    batch.iter().map(|j| j.id.as_str()).collect()
}

#[test]
fn update_batches_hold_six_jobs() {
    let jobs: Vec<Job> = (0..13).map(|i| job(&i.to_string(), 10, None)).collect();
    let out = batches(UPDATE_MODEL, jobs);
    let sizes: Vec<usize> = out.iter().map(Vec::len).collect();
    assert_eq!(sizes, vec![6, 6, 1]);
    assert_eq!(ids(&out[2]), vec!["12"]);
}

#[test]
fn batches_close_before_the_character_limit() {
    let jobs = vec![
        job("a", 5_000, None),
        job("b", 3_000, Some("prior")),
        job("c", 1_000, None),
        job("d", 20_000, None),
        job("e", 1, None),
    ];
    let out = batches(UPDATE_MODEL, jobs);
    let grouped: Vec<Vec<&str>> = out.iter().map(|b| ids(b)).collect();
    assert_eq!(grouped, vec![vec!["a", "b"], vec!["c"], vec!["d"], vec!["e"]]);
}

#[test]
fn initial_batches_take_a_hundred_jobs() {
    let jobs: Vec<Job> = (0..250).map(|i| job(&i.to_string(), 1, None)).collect();
    let out = batches(INITIAL_MODEL, jobs);
    let sizes: Vec<usize> = out.iter().map(Vec::len).collect();
    assert_eq!(sizes, vec![100, 100, 50]);
    assert!(batches(INITIAL_MODEL, Vec::new()).is_empty());
}

#[test]
fn prompt_lists_each_job_with_prior_and_capsule() {
    let mut first = job("t1", 0, Some("old label"));
    first.capsule = "goal: x".to_string();
    let mut second = job("t2", 0, None);
    second.capsule = "goal: y".to_string();
    let prompt = label_prompt(&vec![first, second]);
    assert!(prompt.starts_with("Label each Codex conversation for a /resume index. Return exactly one item per ID. Each label is one concrete sentence fragment"));
    assert!(prompt.ends_with(
        "no markdown.\n\nID t1\nPRIOR old label\nCONVERSATION\ngoal: x\n\nID t2\nCONVERSATION\ngoal: y\n"
    ));
}

fn label(id: &str, text: &str) -> ModelLabel {
    ModelLabel {
        id: id.to_string(),
        label: text.to_string(),
    }
}

#[test]
fn collected_labels_are_normalised_and_complete() {
    let jobs = vec![job("a", 1, None), job("b", 1, None)];
    let items = vec![
        label("a", "  first   label "),
        label("stranger", "ignored"),
        label("b", "\"second\""),
        label("a", "replaced label"),
    ];
    let mut labels = collect_labels(&jobs, items).unwrap();
    labels.sort();
    assert_eq!(
        labels,
        vec![
            ("a".to_string(), "replaced label".to_string()),
            ("b".to_string(), "second".to_string())
        ]
    );
}

#[test]
fn incomplete_label_sets_are_refused() {
    let jobs = vec![job("a", 1, None), job("b", 1, None)];
    let items = vec![label("a", "fine"), label("b", "''")];
    assert_eq!(collect_labels(&jobs, items).unwrap_err(), LabelSetError::Incomplete);
    assert_eq!(
        LabelSetError::Incomplete.message(),
        "model returned an incomplete label set"
    );
}

#[test]
fn failed_calls_split_in_halves_until_one_job_fails() {
    assert!(run_numbers_fit(0, 5));
    assert!(!run_numbers_fit(usize::MAX / 2, 4));
    let (mut run, first) = ResilientRun::start(5, 0);
    assert_eq!(first, Attempt { lo: 0, hi: 5, run: 0 });
    let step = run_model_resilient(&mut run, Err("bad".to_string()));
    assert!(matches!(step, Step::Attempt(Attempt { lo: 0, hi: 2, run: 1 })));
    let step = run_model_resilient(
        &mut run,
        Ok(vec![("a".to_string(), "x".to_string()), ("b".to_string(), "y".to_string())]),
    );
    assert!(matches!(step, Step::Attempt(Attempt { lo: 2, hi: 5, run: 2 })));
    let step = run_model_resilient(&mut run, Err("bad".to_string()));
    assert!(matches!(step, Step::Attempt(Attempt { lo: 2, hi: 3, run: 5 })));
    let step = run_model_resilient(&mut run, Err("job three".to_string()));
    match step {
        Step::Done(Err(message)) => assert_eq!(message, "job three"),
        _ => panic!("a single failed job ends the batch"),
    }
}

#[test]
fn a_batch_that_succeeds_returns_all_its_labels() {
    let (mut run, _) = ResilientRun::start(2, 7);
    let step = run_model_resilient(&mut run, Err("flaky".to_string()));
    assert!(matches!(step, Step::Attempt(Attempt { lo: 0, hi: 1, run: 15 })));
    let step = run_model_resilient(&mut run, Ok(vec![("a".to_string(), "x".to_string())]));
    assert!(matches!(step, Step::Attempt(Attempt { lo: 1, hi: 2, run: 16 })));
    match run_model_resilient(&mut run, Ok(vec![("b".to_string(), "y".to_string())])) {
        Step::Done(Ok(labels)) => assert_eq!(
            labels,
            vec![("a".to_string(), "x".to_string()), ("b".to_string(), "y".to_string())]
        ),
        _ => panic!("both halves succeeded"),
    }
}

#[test]
fn a_run_makes_at_most_two_n_minus_one_calls_with_distinct_run_numbers() {
    let (mut run, first) = ResilientRun::start(4, 0);
    let mut calls = vec![first];
    let mut labels = None;
    for _ in 0..20 {
        let current = *calls.last().unwrap();
        let outcome = if current.hi - current.lo > 1 {
            Err("too many".to_string())
        } else {
            Ok(vec![(format!("job{}", current.lo), format!("label{}", current.lo))])
        };
        match run_model_resilient(&mut run, outcome) {
            Step::Attempt(next) => calls.push(next),
            Step::Done(result) => {
                labels = Some(result.unwrap());
                break;
            }
        }
    }
    assert_eq!(calls.len(), 7);
    let mut runs: Vec<usize> = calls.iter().map(|call| call.run).collect();
    assert_eq!(runs, vec![0, 1, 3, 4, 2, 5, 6]);
    runs.sort();
    runs.dedup();
    assert_eq!(runs.len(), 7);
    let labels = labels.unwrap();
    let ids: Vec<&str> = labels.iter().map(|(id, _)| id.as_str()).collect();
    assert_eq!(ids, vec!["job0", "job1", "job2", "job3"]);
}
