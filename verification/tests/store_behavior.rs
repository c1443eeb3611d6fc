use benchmaker::AppState;
use benchmaker::BenchmakerDb;
use benchmaker::LegacySnapshot;
use benchmaker::ModelParameters;
use benchmaker::RunResult;
use benchmaker::ScoringResult;
use benchmaker::Store;
use benchmaker::StoreError;
use benchmaker::TestCase;
use benchmaker::TestCaseMetadata;
use benchmaker::TestCaseResult;
use benchmaker::TestSuite;
use benchmaker::CURRENT_SCHEMA_VERSION;

fn make_case(id: &str, prompt: &str) -> TestCase {
    TestCase {
        id: id.to_string(),
        prompt: prompt.to_string(),
        expected_output: None,
        scoring_method: "exact".to_string(),
        weight: "1.0".to_string(),
        metadata: TestCaseMetadata {
            category: Some("general".to_string()),
            difficulty: None,
            tags: vec!["a".to_string(), "b".to_string()],
        },
    }
}

fn make_suite(id: &str, name: &str, updated_at: i64, cases: Vec<TestCase>) -> TestSuite {
    TestSuite {
        id: id.to_string(),
        name: name.to_string(),
        description: Some("d".to_string()),
        system_prompt: "sys".to_string(),
        judge_system_prompt: None,
        test_cases: cases,
        created_at: 100,
        updated_at,
    }
}

fn make_params() -> ModelParameters {
    ModelParameters {
        temperature: "0.5".to_string(),
        top_p: "0.9".to_string(),
        max_tokens: 2048,
        frequency_penalty: "0.0".to_string(),
        presence_penalty: "0.0".to_string(),
    }
}

fn make_result(case_id: &str, model: &str) -> TestCaseResult {
    TestCaseResult {
        test_case_id: case_id.to_string(),
        model_id: model.to_string(),
        response: "out".to_string(),
        token_count: Some(12),
        latency_ms: Some(250),
        status: "completed".to_string(),
        error: None,
        score: Some(ScoringResult {
            score: "0.75".to_string(),
            confidence: Some("0.9".to_string()),
            notes: Some("fine".to_string()),
            raw_score: None,
            max_score: Some("1.0".to_string()),
        }),
        streamed_content: None,
    }
}

fn make_run(id: &str, suite_id: &str, started_at: i64, results: Vec<TestCaseResult>) -> RunResult {
    RunResult {
        id: id.to_string(),
        test_suite_id: suite_id.to_string(),
        test_suite_name: "Suite".to_string(),
        models: vec!["model-a".to_string(), "model-b".to_string()],
        parameters: make_params(),
        results,
        status: "running".to_string(),
        started_at,
        completed_at: None,
        judge_model: None,
    }
}

#[test]
fn migrate_fresh_store_stamps_version() {
    let mut st = Store::new();
    assert!(st.migrate_database().is_ok());
    assert_eq!(st.version, Some(CURRENT_SCHEMA_VERSION));
    let state = st.get_app_state();
    assert_eq!(state.active_test_suite_id, None);
    assert_eq!(state.current_run_id, None);
}

#[test]
fn migrate_is_idempotent() {
    let mut st = Store::new();
    st.legacy = Some(Some(LegacySnapshot::Decoded(BenchmakerDb {
        version: 1,
        updated_at: 5,
        test_suites: vec![make_suite("s1", "One", 10, vec![make_case("c1", "p1")])],
        runs: vec![make_run("r1", "s1", 50, vec![make_result("c1", "model-a")])],
        active_test_suite_id: Some("s1".to_string()),
        current_run_id: None,
    })));
    assert!(st.migrate_database().is_ok());
    let suites_once = st.suites.clone();
    let cases_once = st.cases.clone();
    let runs_once = st.runs.clone();
    let results_once = st.results.clone();
    let version_once = st.version;
    assert!(st.migrate_database().is_ok());
    assert_eq!(st.suites, suites_once);
    assert_eq!(st.cases, cases_once);
    assert_eq!(st.runs, runs_once);
    assert_eq!(st.results, results_once);
    assert_eq!(st.version, version_once);
}

#[test]
fn migrate_reads_legacy_payload_and_drops_it() {
    let mut st = Store::new();
    st.legacy = Some(Some(LegacySnapshot::Decoded(BenchmakerDb {
        version: 1,
        updated_at: 5,
        test_suites: vec![make_suite(
            "s1",
            "One",
            10,
            vec![make_case("c1", "p1"), make_case("c2", "p2")],
        )],
        runs: vec![make_run("r1", "s1", 50, vec![make_result("c1", "model-a")])],
        active_test_suite_id: Some("s1".to_string()),
        current_run_id: Some("r1".to_string()),
    })));
    assert!(st.migrate_database().is_ok());
    assert_eq!(st.version, Some(2));
    assert!(st.legacy.is_none());
    let suites = st.get_all_test_suites();
    assert_eq!(suites.len(), 1);
    assert_eq!(suites[0].id, "s1");
    assert_eq!(suites[0].test_cases.len(), 2);
    assert_eq!(suites[0].test_cases[0].id, "c1");
    assert_eq!(suites[0].test_cases[1].id, "c2");
    let runs = st.get_all_runs();
    assert_eq!(runs.len(), 1);
    assert_eq!(runs[0].id, "r1");
    assert_eq!(runs[0].results.len(), 1);
    let state = st.get_app_state();
    assert_eq!(state.active_test_suite_id, Some("s1".to_string()));
    assert_eq!(state.current_run_id, Some("r1".to_string()));
}

#[test]
fn migrate_invalid_legacy_payload_is_fatal() {
    let mut st = Store::new();
    st.legacy = Some(Some(LegacySnapshot::Invalid("bad payload".to_string())));
    let r = st.migrate_database();
    assert_eq!(r, Err(StoreError::SnapshotDecode("bad payload".to_string())));
    assert_eq!(st.version, None);
    assert!(st.app_state.is_none());
}

#[test]
fn save_suite_then_list_keeps_case_order() {
    let mut st = Store::new();
    st.migrate_database().unwrap();
    let suite = make_suite(
        "s1",
        "One",
        10,
        vec![make_case("z", "pz"), make_case("a", "pa"), make_case("m", "pm")],
    );
    assert!(st.save_test_suite(&suite).is_ok());
    let listed = st.get_all_test_suites();
    assert_eq!(listed.len(), 1);
    let ids: Vec<&str> = listed[0].test_cases.iter().map(|c| c.id.as_str()).collect();
    assert_eq!(ids, vec!["z", "a", "m"]);
}

#[test]
fn suites_listed_most_recently_updated_first() {
    let mut st = Store::new();
    st.migrate_database().unwrap();
    st.save_test_suite(&make_suite("s1", "Old", 10, vec![])).unwrap();
    st.save_test_suite(&make_suite("s2", "New", 30, vec![])).unwrap();
    st.save_test_suite(&make_suite("s3", "Mid", 20, vec![])).unwrap();
    let listed = st.get_all_test_suites();
    let ids: Vec<&str> = listed.iter().map(|s| s.id.as_str()).collect();
    assert_eq!(ids, vec!["s2", "s3", "s1"]);
}

#[test]
fn resave_replaces_all_children() {
    let mut st = Store::new();
    st.migrate_database().unwrap();
    let first = make_suite("s1", "One", 10, vec![make_case("c1", "p1"), make_case("c2", "p2")]);
    assert!(st.save_test_suite(&first).is_ok());
    let second = make_suite("s1", "One", 11, vec![make_case("c2", "p2")]);
    assert!(st.save_test_suite(&second).is_ok());
    let listed = st.get_all_test_suites();
    assert_eq!(listed.len(), 1);
    assert_eq!(listed[0].test_cases.len(), 1);
    assert_eq!(listed[0].test_cases[0].id, "c2");
}

#[test]
fn upsert_keeps_created_at() {
    let mut st = Store::new();
    st.migrate_database().unwrap();
    st.save_test_suite(&make_suite("s1", "One", 10, vec![])).unwrap();
    let mut renamed = make_suite("s1", "Renamed", 42, vec![]);
    renamed.created_at = 999;
    st.save_test_suite(&renamed).unwrap();
    let listed = st.get_all_test_suites();
    assert_eq!(listed[0].name, "Renamed");
    assert_eq!(listed[0].updated_at, 42);
    assert_eq!(listed[0].created_at, 100);
}

#[test]
fn delete_suite_cascades_to_cases() {
    let mut st = Store::new();
    st.migrate_database().unwrap();
    st.save_test_suite(&make_suite("s1", "One", 10, vec![make_case("c1", "p1")])).unwrap();
    st.save_run(&make_run("r1", "s1", 50, vec![]));
    st.delete_test_suite(&"s1".to_string());
    assert!(st.get_all_test_suites().is_empty());
    assert!(st.cases.is_empty());
    // runs reference the suite loosely and survive
    assert_eq!(st.get_all_runs().len(), 1);
}

#[test]
fn delete_run_cascades_to_results() {
    let mut st = Store::new();
    st.migrate_database().unwrap();
    st.save_run(&make_run("r1", "s1", 50, vec![make_result("c1", "model-a")]));
    assert_eq!(st.results.len(), 1);
    st.delete_run(&"r1".to_string());
    assert!(st.get_all_runs().is_empty());
    assert!(st.results.is_empty());
}

#[test]
fn run_upsert_refreshes_only_status_and_completion() {
    let mut st = Store::new();
    st.migrate_database().unwrap();
    st.save_run(&make_run("r1", "s1", 50, vec![]));
    let mut second = make_run("r1", "other-suite", 999, vec![]);
    second.models = vec!["model-x".to_string()];
    second.parameters.temperature = "0.1".to_string();
    second.status = "completed".to_string();
    second.completed_at = Some(77);
    st.save_run(&second);
    let runs = st.get_all_runs();
    assert_eq!(runs.len(), 1);
    assert_eq!(runs[0].status, "completed");
    assert_eq!(runs[0].completed_at, Some(77));
    assert_eq!(runs[0].started_at, 50);
    assert_eq!(runs[0].test_suite_id, "s1");
    assert_eq!(runs[0].models, vec!["model-a".to_string(), "model-b".to_string()]);
    assert_eq!(runs[0].parameters.temperature, "0.5");
}

#[test]
fn run_save_replaces_results() {
    let mut st = Store::new();
    st.migrate_database().unwrap();
    st.save_run(&make_run("r1", "s1", 50, vec![make_result("c1", "model-a"), make_result("c1", "model-b")]));
    st.save_run(&make_run("r1", "s1", 50, vec![make_result("c2", "model-a")]));
    let runs = st.get_all_runs();
    assert_eq!(runs[0].results.len(), 1);
    assert_eq!(runs[0].results[0].test_case_id, "c2");
}

#[test]
fn runs_listed_latest_started_first() {
    let mut st = Store::new();
    st.migrate_database().unwrap();
    st.save_run(&make_run("r1", "s1", 10, vec![]));
    st.save_run(&make_run("r2", "s1", 30, vec![]));
    st.save_run(&make_run("r3", "s1", 20, vec![]));
    let ids: Vec<String> = st.get_all_runs().into_iter().map(|r| r.id).collect();
    assert_eq!(ids, vec!["r2".to_string(), "r3".to_string(), "r1".to_string()]);
}

#[test]
fn duplicate_case_id_in_one_suite_is_rejected() {
    let mut st = Store::new();
    st.migrate_database().unwrap();
    let bad = make_suite("s1", "One", 10, vec![make_case("c1", "p1"), make_case("c1", "p2")]);
    assert_eq!(st.save_test_suite(&bad), Err(StoreError::DuplicateId));
    assert!(st.get_all_test_suites().is_empty());
}

#[test]
fn case_id_collision_with_another_suite_is_rejected() {
    let mut st = Store::new();
    st.migrate_database().unwrap();
    st.save_test_suite(&make_suite("s1", "One", 10, vec![make_case("c1", "p1")])).unwrap();
    let clash = make_suite("s2", "Two", 20, vec![make_case("c1", "p2")]);
    assert_eq!(st.save_test_suite(&clash), Err(StoreError::DuplicateId));
    let listed = st.get_all_test_suites();
    assert_eq!(listed.len(), 1);
    assert_eq!(listed[0].id, "s1");
}

#[test]
fn snapshot_write_with_empty_lists_clears_the_store() {
    let mut st = Store::new();
    st.migrate_database().unwrap();
    st.save_test_suite(&make_suite("s1", "One", 10, vec![make_case("c1", "p1")])).unwrap();
    st.save_run(&make_run("r1", "s1", 50, vec![make_result("c1", "model-a")]));
    let doc = BenchmakerDb {
        version: 2,
        updated_at: 0,
        test_suites: vec![],
        runs: vec![],
        active_test_suite_id: None,
        current_run_id: None,
    };
    assert!(st.write_snapshot(&doc).is_ok());
    let read = st.read_snapshot();
    assert!(read.test_suites.is_empty());
    assert!(read.runs.is_empty());
    assert_eq!(read.active_test_suite_id, None);
    assert_eq!(read.current_run_id, None);
}

#[test]
fn snapshot_round_trip_is_stable() {
    let mut st = Store::new();
    st.migrate_database().unwrap();
    st.save_test_suite(&make_suite(
        "s1",
        "One",
        10,
        vec![make_case("c1", "p1"), make_case("c2", "p2")],
    ))
    .unwrap();
    st.save_test_suite(&make_suite("s2", "Two", 30, vec![make_case("c3", "p3")])).unwrap();
    st.save_run(&make_run("r1", "s1", 50, vec![make_result("c1", "model-a")]));
    st.save_app_state(&AppState {
        active_test_suite_id: Some("s2".to_string()),
        current_run_id: Some("r1".to_string()),
    });
    let d1 = st.read_snapshot();
    assert!(st.write_snapshot(&d1).is_ok());
    let d2 = st.read_snapshot();
    assert_eq!(d2.version, d1.version);
    assert_eq!(d2.test_suites, d1.test_suites);
    assert_eq!(d2.runs, d1.runs);
    assert_eq!(d2.active_test_suite_id, d1.active_test_suite_id);
    assert_eq!(d2.current_run_id, d1.current_run_id);
}

#[test]
fn snapshot_write_replaces_membership() {
    let mut st = Store::new();
    st.migrate_database().unwrap();
    st.save_test_suite(&make_suite("s1", "One", 10, vec![make_case("c1", "p1")])).unwrap();
    st.save_test_suite(&make_suite("s2", "Two", 20, vec![make_case("c2", "p2")])).unwrap();
    let doc = BenchmakerDb {
        version: 2,
        updated_at: 0,
        test_suites: vec![make_suite("s2", "Two renamed", 40, vec![make_case("c9", "p9")])],
        runs: vec![],
        active_test_suite_id: Some("s2".to_string()),
        current_run_id: None,
    };
    assert!(st.write_snapshot(&doc).is_ok());
    let listed = st.get_all_test_suites();
    assert_eq!(listed.len(), 1);
    assert_eq!(listed[0].id, "s2");
    assert_eq!(listed[0].name, "Two renamed");
    assert_eq!(listed[0].test_cases.len(), 1);
    assert_eq!(listed[0].test_cases[0].id, "c9");
}

#[test]
fn snapshot_write_duplicate_suite_id_is_rejected() {
    let mut st = Store::new();
    st.migrate_database().unwrap();
    st.save_test_suite(&make_suite("s1", "One", 10, vec![])).unwrap();
    let doc = BenchmakerDb {
        version: 2,
        updated_at: 0,
        test_suites: vec![
            make_suite("dup", "A", 10, vec![]),
            make_suite("dup", "B", 20, vec![]),
        ],
        runs: vec![],
        active_test_suite_id: None,
        current_run_id: None,
    };
    assert_eq!(st.write_snapshot(&doc), Err(StoreError::DuplicateId));
    // nothing moved
    let listed = st.get_all_test_suites();
    assert_eq!(listed.len(), 1);
    assert_eq!(listed[0].id, "s1");
}

#[test]
fn app_state_is_overwritten_wholesale() {
    let mut st = Store::new();
    st.migrate_database().unwrap();
    st.save_app_state(&AppState {
        active_test_suite_id: Some("s1".to_string()),
        current_run_id: Some("r1".to_string()),
    });
    st.save_app_state(&AppState { active_test_suite_id: None, current_run_id: Some("r2".to_string()) });
    let got = st.get_app_state();
    assert_eq!(got.active_test_suite_id, None);
    assert_eq!(got.current_run_id, Some("r2".to_string()));
}

#[test]
fn clock_reads_epoch_milliseconds() {
    let now = benchmaker::chrono_now();
    assert!(now > 0);
}

#[test]
fn legacy_case_replace_evicts_earlier_row() {
    // insert-or-replace by primary key: a later case with the same id
    // evicts the earlier row, even across suites
    let mut st = Store::new();
    st.legacy = Some(Some(LegacySnapshot::Decoded(BenchmakerDb {
        version: 1,
        updated_at: 5,
        test_suites: vec![
            make_suite("s1", "One", 10, vec![make_case("c1", "p1")]),
            make_suite("s2", "Two", 20, vec![make_case("c1", "p2")]),
        ],
        runs: vec![],
        active_test_suite_id: None,
        current_run_id: None,
    })));
    assert!(st.migrate_database().is_ok());
    let suites = st.get_all_test_suites();
    assert_eq!(suites.len(), 2);
    let s1 = suites.iter().find(|s| s.id == "s1").unwrap();
    let s2 = suites.iter().find(|s| s.id == "s2").unwrap();
    assert!(s1.test_cases.is_empty());
    assert_eq!(s2.test_cases.len(), 1);
    assert_eq!(s2.test_cases[0].prompt, "p2");
}

#[test]
fn cases_and_results_are_fetched_per_parent() {
    let mut st = Store::new();
    st.migrate_database().unwrap();
    st.save_test_suite(&make_suite("s1", "One", 10, vec![make_case("c1", "p1")])).unwrap();
    st.save_test_suite(&make_suite("s2", "Two", 20, vec![make_case("c2", "p2")])).unwrap();
    st.save_run(&make_run("r1", "s1", 50, vec![make_result("c1", "model-a")]));
    st.save_run(&make_run("r2", "s1", 60, vec![make_result("c2", "model-b")]));
    let cs = st.get_test_cases_for_suite(&"s2".to_string());
    assert_eq!(cs.len(), 1);
    assert_eq!(cs[0].id, "c2");
    let rs = st.get_results_for_run(&"r1".to_string());
    assert_eq!(rs.len(), 1);
    assert_eq!(rs[0].model_id, "model-a");
}

#[test]
fn snapshot_read_stamps_current_version() {
    let mut st = Store::new();
    st.migrate_database().unwrap();
    let doc = st.read_snapshot();
    assert_eq!(doc.version, CURRENT_SCHEMA_VERSION);
}

#[test]
fn check_wf_accepts_good_and_refuses_bad_images() {
    let mut st = Store::new();
    st.migrate_database().unwrap();
    st.save_test_suite(&make_suite("s1", "One", 10, vec![make_case("c1", "p1")])).unwrap();
    st.save_run(&make_run("r1", "s1", 50, vec![make_result("c1", "model-a")]));
    assert!(st.check_wf());
    // an orphaned case row violates referential integrity
    let mut bad = Store::new();
    bad.cases = st.cases.clone();
    assert!(!bad.check_wf());
    // a duplicated suite id violates the primary key
    let mut dup = Store::new();
    dup.suites = st.suites.clone();
    dup.suites.extend(st.suites.clone());
    dup.cases = vec![];
    assert!(!dup.check_wf());
}
