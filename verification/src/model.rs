//! The data model of the benchmarking store: suites with ordered test cases,
//! runs with unordered per-case results, and the singleton app-state pointer.
//!
//! All identifiers are opaque, client-supplied strings.  Numeric payload
//! fields that the storage layer never interprets (case weights, sampling
//! parameters, scores) are kept as decimal literals in text form, exactly as
//! they appear inside the embedded JSON columns; `codec::is_number` says what
//! text is admissible there.

use vstd::prelude::*;

verus! {

/// Auxiliary description attached to a test case.
#[derive(Debug, Clone, PartialEq)]
pub struct TestCaseMetadata {
    pub category: Option<String>,
    pub difficulty: Option<String>,
    pub tags: Vec<String>,
}

/// Mathematical image of [`TestCaseMetadata`].
#[verifier::ext_equal]
pub struct TestCaseMetadataV {
    pub category: Option<Seq<char>>,
    pub difficulty: Option<Seq<char>>,
    pub tags: Seq<Seq<char>>,
}

impl DeepView for TestCaseMetadata {
    type V = TestCaseMetadataV;

    open spec fn deep_view(&self) -> TestCaseMetadataV {
        TestCaseMetadataV {
            category: self.category.deep_view(),
            difficulty: self.difficulty.deep_view(),
            tags: self.tags.deep_view(),
        }
    }
}

/// One prompt of a suite.  `weight` is a decimal literal kept as text.
#[derive(Debug, Clone, PartialEq)]
pub struct TestCase {
    pub id: String,
    pub prompt: String,
    pub expected_output: Option<String>,
    pub scoring_method: String,
    pub weight: String,
    pub metadata: TestCaseMetadata,
}

/// Mathematical image of [`TestCase`].
#[verifier::ext_equal]
pub struct TestCaseV {
    pub id: Seq<char>,
    pub prompt: Seq<char>,
    pub expected_output: Option<Seq<char>>,
    pub scoring_method: Seq<char>,
    pub weight: Seq<char>,
    pub metadata: TestCaseMetadataV,
}

impl DeepView for TestCase {
    type V = TestCaseV;

    open spec fn deep_view(&self) -> TestCaseV {
        TestCaseV {
            id: self.id.deep_view(),
            prompt: self.prompt.deep_view(),
            expected_output: self.expected_output.deep_view(),
            scoring_method: self.scoring_method.deep_view(),
            weight: self.weight.deep_view(),
            metadata: self.metadata.deep_view(),
        }
    }
}

/// A named collection of test cases; the order of `test_cases` is the
/// author-defined display order.  Timestamps are epoch milliseconds.
#[derive(Debug, Clone, PartialEq)]
pub struct TestSuite {
    pub id: String,
    pub name: String,
    pub description: Option<String>,
    pub system_prompt: String,
    pub judge_system_prompt: Option<String>,
    pub test_cases: Vec<TestCase>,
    pub created_at: i64,
    pub updated_at: i64,
}

/// Mathematical image of [`TestSuite`].
#[verifier::ext_equal]
pub struct TestSuiteV {
    pub id: Seq<char>,
    pub name: Seq<char>,
    pub description: Option<Seq<char>>,
    pub system_prompt: Seq<char>,
    pub judge_system_prompt: Option<Seq<char>>,
    pub test_cases: Seq<TestCaseV>,
    pub created_at: i64,
    pub updated_at: i64,
}

impl DeepView for TestSuite {
    type V = TestSuiteV;

    open spec fn deep_view(&self) -> TestSuiteV {
        TestSuiteV {
            id: self.id.deep_view(),
            name: self.name.deep_view(),
            description: self.description.deep_view(),
            system_prompt: self.system_prompt.deep_view(),
            judge_system_prompt: self.judge_system_prompt.deep_view(),
            test_cases: self.test_cases.deep_view(),
            created_at: self.created_at,
            updated_at: self.updated_at,
        }
    }
}

/// Judge verdict for one result.  All numeric fields are decimal literals
/// kept as text.
#[derive(Debug, Clone, PartialEq)]
pub struct ScoringResult {
    pub score: String,
    pub confidence: Option<String>,
    pub notes: Option<String>,
    pub raw_score: Option<String>,
    pub max_score: Option<String>,
}

/// Mathematical image of [`ScoringResult`].
#[verifier::ext_equal]
pub struct ScoringResultV {
    pub score: Seq<char>,
    pub confidence: Option<Seq<char>>,
    pub notes: Option<Seq<char>>,
    pub raw_score: Option<Seq<char>>,
    pub max_score: Option<Seq<char>>,
}

impl DeepView for ScoringResult {
    type V = ScoringResultV;

    open spec fn deep_view(&self) -> ScoringResultV {
        ScoringResultV {
            score: self.score.deep_view(),
            confidence: self.confidence.deep_view(),
            notes: self.notes.deep_view(),
            raw_score: self.raw_score.deep_view(),
            max_score: self.max_score.deep_view(),
        }
    }
}

/// Sampling parameters of a run.  All fields except `max_tokens` are decimal
/// literals kept as text.
#[derive(Debug, Clone, PartialEq)]
pub struct ModelParameters {
    pub temperature: String,
    pub top_p: String,
    pub max_tokens: i64,
    pub frequency_penalty: String,
    pub presence_penalty: String,
}

/// Mathematical image of [`ModelParameters`].
#[verifier::ext_equal]
pub struct ModelParametersV {
    pub temperature: Seq<char>,
    pub top_p: Seq<char>,
    pub max_tokens: i64,
    pub frequency_penalty: Seq<char>,
    pub presence_penalty: Seq<char>,
}

impl DeepView for ModelParameters {
    type V = ModelParametersV;

    open spec fn deep_view(&self) -> ModelParametersV {
        ModelParametersV {
            temperature: self.temperature.deep_view(),
            top_p: self.top_p.deep_view(),
            max_tokens: self.max_tokens,
            frequency_penalty: self.frequency_penalty.deep_view(),
            presence_penalty: self.presence_penalty.deep_view(),
        }
    }
}

/// Outcome of one (test case, model) pair within a run.  The pair is not
/// unique per run: a model may be retried.
#[derive(Debug, Clone, PartialEq)]
pub struct TestCaseResult {
    pub test_case_id: String,
    pub model_id: String,
    pub response: String,
    pub token_count: Option<i64>,
    pub latency_ms: Option<i64>,
    pub status: String,
    pub error: Option<String>,
    pub score: Option<ScoringResult>,
    pub streamed_content: Option<String>,
}

/// Mathematical image of [`TestCaseResult`].
#[verifier::ext_equal]
pub struct TestCaseResultV {
    pub test_case_id: Seq<char>,
    pub model_id: Seq<char>,
    pub response: Seq<char>,
    pub token_count: Option<i64>,
    pub latency_ms: Option<i64>,
    pub status: Seq<char>,
    pub error: Option<Seq<char>>,
    pub score: Option<ScoringResultV>,
    pub streamed_content: Option<Seq<char>>,
}

impl DeepView for TestCaseResult {
    type V = TestCaseResultV;

    open spec fn deep_view(&self) -> TestCaseResultV {
        TestCaseResultV {
            test_case_id: self.test_case_id.deep_view(),
            model_id: self.model_id.deep_view(),
            response: self.response.deep_view(),
            token_count: self.token_count,
            latency_ms: self.latency_ms,
            status: self.status.deep_view(),
            error: self.error.deep_view(),
            score: self.score.deep_view(),
            streamed_content: self.streamed_content.deep_view(),
        }
    }
}

/// One execution run.  It references its suite loosely and keeps a copy of
/// the suite name taken at run time, so it survives a later rename or
/// deletion of the suite.
#[derive(Debug, Clone, PartialEq)]
pub struct RunResult {
    pub id: String,
    pub test_suite_id: String,
    pub test_suite_name: String,
    pub models: Vec<String>,
    pub parameters: ModelParameters,
    pub results: Vec<TestCaseResult>,
    pub status: String,
    pub started_at: i64,
    pub completed_at: Option<i64>,
    pub judge_model: Option<String>,
}

/// Mathematical image of [`RunResult`].
#[verifier::ext_equal]
pub struct RunResultV {
    pub id: Seq<char>,
    pub test_suite_id: Seq<char>,
    pub test_suite_name: Seq<char>,
    pub models: Seq<Seq<char>>,
    pub parameters: ModelParametersV,
    pub results: Seq<TestCaseResultV>,
    pub status: Seq<char>,
    pub started_at: i64,
    pub completed_at: Option<i64>,
    pub judge_model: Option<Seq<char>>,
}

impl DeepView for RunResult {
    type V = RunResultV;

    open spec fn deep_view(&self) -> RunResultV {
        RunResultV {
            id: self.id.deep_view(),
            test_suite_id: self.test_suite_id.deep_view(),
            test_suite_name: self.test_suite_name.deep_view(),
            models: self.models.deep_view(),
            parameters: self.parameters.deep_view(),
            results: self.results.deep_view(),
            status: self.status.deep_view(),
            started_at: self.started_at,
            completed_at: self.completed_at,
            judge_model: self.judge_model.deep_view(),
        }
    }
}

/// The singleton session pointer: both references are soft (no existence
/// check is made when it is written).
#[derive(Debug, Clone, PartialEq)]
pub struct AppState {
    pub active_test_suite_id: Option<String>,
    pub current_run_id: Option<String>,
}

/// Mathematical image of [`AppState`].
#[verifier::ext_equal]
pub struct AppStateV {
    pub active_test_suite_id: Option<Seq<char>>,
    pub current_run_id: Option<Seq<char>>,
}

impl DeepView for AppState {
    type V = AppStateV;

    open spec fn deep_view(&self) -> AppStateV {
        AppStateV {
            active_test_suite_id: self.active_test_suite_id.deep_view(),
            current_run_id: self.current_run_id.deep_view(),
        }
    }
}

impl AppState {
    /// The self-healing default: no active suite, no current run.
    pub fn empty() -> (r: AppState)
        ensures
            r.deep_view() == (AppStateV { active_test_suite_id: None, current_run_id: None }),
    {
        AppState { active_test_suite_id: None, current_run_id: None }
    }
}

/// The aggregate document of the legacy whole-database interface: every
/// suite, every run and the session pointer in one value, stamped with the
/// schema version and a write time.
#[derive(Debug, Clone, PartialEq)]
pub struct BenchmakerDb {
    pub version: i64,
    pub updated_at: i64,
    pub test_suites: Vec<TestSuite>,
    pub runs: Vec<RunResult>,
    pub active_test_suite_id: Option<String>,
    pub current_run_id: Option<String>,
}

/// Mathematical image of [`BenchmakerDb`].
#[verifier::ext_equal]
pub struct BenchmakerDbV {
    pub version: i64,
    pub updated_at: i64,
    pub test_suites: Seq<TestSuiteV>,
    pub runs: Seq<RunResultV>,
    pub active_test_suite_id: Option<Seq<char>>,
    pub current_run_id: Option<Seq<char>>,
}

impl DeepView for BenchmakerDb {
    type V = BenchmakerDbV;

    open spec fn deep_view(&self) -> BenchmakerDbV {
        BenchmakerDbV {
            version: self.version,
            updated_at: self.updated_at,
            test_suites: self.test_suites.deep_view(),
            runs: self.runs.deep_view(),
            active_test_suite_id: self.active_test_suite_id.deep_view(),
            current_run_id: self.current_run_id.deep_view(),
        }
    }
}

} // verus!
