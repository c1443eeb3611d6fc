//! Row images of the normalized tables.
//!
//! Each struct mirrors one table of the store: the column set is the
//! contract, column order is not significant.  Embedded JSON columns appear
//! here in decoded form (`codec` says how they read and print); the
//! surrogate key of the result table is represented by row position.

use vstd::prelude::*;

use crate::model::AppState;
use crate::model::AppStateV;
use crate::model::BenchmakerDb;
use crate::model::BenchmakerDbV;
use crate::model::ModelParameters;
use crate::model::ModelParametersV;
use crate::model::ScoringResult;
use crate::model::ScoringResultV;

verus! {

/// One row of the suite table.
#[derive(Debug, Clone, PartialEq)]
pub struct SuiteRow {
    pub id: String,
    pub name: String,
    pub description: Option<String>,
    pub system_prompt: String,
    pub judge_system_prompt: Option<String>,
    pub created_at: i64,
    pub updated_at: i64,
}

/// Mathematical image of [`SuiteRow`].
#[verifier::ext_equal]
pub struct SuiteRowV {
    pub id: Seq<char>,
    pub name: Seq<char>,
    pub description: Option<Seq<char>>,
    pub system_prompt: Seq<char>,
    pub judge_system_prompt: Option<Seq<char>>,
    pub created_at: i64,
    pub updated_at: i64,
}

impl DeepView for SuiteRow {
    type V = SuiteRowV;

    open spec fn deep_view(&self) -> SuiteRowV {
        SuiteRowV {
            id: self.id.deep_view(),
            name: self.name.deep_view(),
            description: self.description.deep_view(),
            system_prompt: self.system_prompt.deep_view(),
            judge_system_prompt: self.judge_system_prompt.deep_view(),
            created_at: self.created_at,
            updated_at: self.updated_at,
        }
    }
}

/// One row of the case table.  `test_suite_id` is a hard reference into the
/// suite table; `sort_order` holds the author-defined position within the
/// suite.
#[derive(Debug, Clone, PartialEq)]
pub struct CaseRow {
    pub id: String,
    pub test_suite_id: String,
    pub prompt: String,
    pub expected_output: Option<String>,
    pub scoring_method: String,
    pub weight: String,
    pub category: Option<String>,
    pub difficulty: Option<String>,
    pub tags: Vec<String>,
    pub sort_order: i64,
}

/// Mathematical image of [`CaseRow`].
#[verifier::ext_equal]
pub struct CaseRowV {
    pub id: Seq<char>,
    pub test_suite_id: Seq<char>,
    pub prompt: Seq<char>,
    pub expected_output: Option<Seq<char>>,
    pub scoring_method: Seq<char>,
    pub weight: Seq<char>,
    pub category: Option<Seq<char>>,
    pub difficulty: Option<Seq<char>>,
    pub tags: Seq<Seq<char>>,
    pub sort_order: i64,
}

impl DeepView for CaseRow {
    type V = CaseRowV;

    open spec fn deep_view(&self) -> CaseRowV {
        CaseRowV {
            id: self.id.deep_view(),
            test_suite_id: self.test_suite_id.deep_view(),
            prompt: self.prompt.deep_view(),
            expected_output: self.expected_output.deep_view(),
            scoring_method: self.scoring_method.deep_view(),
            weight: self.weight.deep_view(),
            category: self.category.deep_view(),
            difficulty: self.difficulty.deep_view(),
            tags: self.tags.deep_view(),
            sort_order: self.sort_order,
        }
    }
}

/// One row of the run table.  The suite reference here is soft: deleting a
/// suite leaves its runs in place.
#[derive(Debug, Clone, PartialEq)]
pub struct RunRow {
    pub id: String,
    pub test_suite_id: String,
    pub test_suite_name: String,
    pub models: Vec<String>,
    pub parameters: ModelParameters,
    pub status: String,
    pub started_at: i64,
    pub completed_at: Option<i64>,
    pub judge_model: Option<String>,
}

/// Mathematical image of [`RunRow`].
#[verifier::ext_equal]
pub struct RunRowV {
    pub id: Seq<char>,
    pub test_suite_id: Seq<char>,
    pub test_suite_name: Seq<char>,
    pub models: Seq<Seq<char>>,
    pub parameters: ModelParametersV,
    pub status: Seq<char>,
    pub started_at: i64,
    pub completed_at: Option<i64>,
    pub judge_model: Option<Seq<char>>,
}

impl DeepView for RunRow {
    type V = RunRowV;

    open spec fn deep_view(&self) -> RunRowV {
        RunRowV {
            id: self.id.deep_view(),
            test_suite_id: self.test_suite_id.deep_view(),
            test_suite_name: self.test_suite_name.deep_view(),
            models: self.models.deep_view(),
            parameters: self.parameters.deep_view(),
            status: self.status.deep_view(),
            started_at: self.started_at,
            completed_at: self.completed_at,
            judge_model: self.judge_model.deep_view(),
        }
    }
}

/// One row of the result table.  `run_id` is a hard reference into the run
/// table; the table's surrogate primary key is represented by row position,
/// so equal (case, model) pairs may repeat.
#[derive(Debug, Clone, PartialEq)]
pub struct ResultRow {
    pub run_id: String,
    pub test_case_id: String,
    pub model_id: String,
    pub response: String,
    pub token_count: Option<i64>,
    pub latency_ms: Option<i64>,
    pub status: String,
    pub error: Option<String>,
    pub score: Option<ScoringResult>,
    pub streamed_content: Option<String>,
}

/// Mathematical image of [`ResultRow`].
#[verifier::ext_equal]
pub struct ResultRowV {
    pub run_id: Seq<char>,
    pub test_case_id: Seq<char>,
    pub model_id: Seq<char>,
    pub response: Seq<char>,
    pub token_count: Option<i64>,
    pub latency_ms: Option<i64>,
    pub status: Seq<char>,
    pub error: Option<Seq<char>>,
    pub score: Option<ScoringResultV>,
    pub streamed_content: Option<Seq<char>>,
}

impl DeepView for ResultRow {
    type V = ResultRowV;

    open spec fn deep_view(&self) -> ResultRowV {
        ResultRowV {
            run_id: self.run_id.deep_view(),
            test_case_id: self.test_case_id.deep_view(),
            model_id: self.model_id.deep_view(),
            response: self.response.deep_view(),
            token_count: self.token_count,
            latency_ms: self.latency_ms,
            status: self.status.deep_view(),
            error: self.error.deep_view(),
            score: self.score.deep_view(),
            streamed_content: self.streamed_content.deep_view(),
        }
    }
}

/// What the legacy single-row aggregate table holds, as handed to the store:
/// either the decoded document, or the decoder's error text for a payload
/// that did not parse.
#[derive(Debug, Clone, PartialEq)]
pub enum LegacySnapshot {
    Decoded(BenchmakerDb),
    Invalid(String),
}

/// Mathematical image of [`LegacySnapshot`].
#[verifier::ext_equal]
pub enum LegacySnapshotV {
    Decoded(BenchmakerDbV),
    Invalid(Seq<char>),
}

impl DeepView for LegacySnapshot {
    type V = LegacySnapshotV;

    open spec fn deep_view(&self) -> LegacySnapshotV {
        match self {
            LegacySnapshot::Decoded(db) => LegacySnapshotV::Decoded(db.deep_view()),
            LegacySnapshot::Invalid(e) => LegacySnapshotV::Invalid(e.deep_view()),
        }
    }
}

// ------------------------------------------------------------------
// Cloning helpers that carry their deep view.
// ------------------------------------------------------------------

/// Clone an optional string, keeping its view.
pub fn clone_opt_string(s: &Option<String>) -> (r: Option<String>)
    ensures
        r.deep_view() == s.deep_view(),
{
    match s {
        Some(x) => Some(x.clone()),
        None => None,
    }
}

/// Clone a list of strings, keeping its view.
pub fn clone_strings(v: &Vec<String>) -> (r: Vec<String>)
    ensures
        r.deep_view() == v.deep_view(),
{
    let mut out: Vec<String> = Vec::new();
    let mut i: usize = 0;
    while i < v.len()
        invariant
            i <= v.len(),
            out.len() == i,
            forall|k: int| 0 <= k < i ==> out.deep_view()[k] == v.deep_view()[k],
        decreases v.len() - i,
    {
        out.push(v[i].clone());
        i += 1;
    }
    proof {
        assert(out.deep_view() =~= v.deep_view());
    }
    out
}

/// Clone the sampling parameters, keeping their view.
pub fn clone_parameters(p: &ModelParameters) -> (r: ModelParameters)
    ensures
        r.deep_view() == p.deep_view(),
{
    ModelParameters {
        temperature: p.temperature.clone(),
        top_p: p.top_p.clone(),
        max_tokens: p.max_tokens,
        frequency_penalty: p.frequency_penalty.clone(),
        presence_penalty: p.presence_penalty.clone(),
    }
}

/// Clone an optional score, keeping its view.
pub fn clone_opt_score(s: &Option<ScoringResult>) -> (r: Option<ScoringResult>)
    ensures
        r.deep_view() == s.deep_view(),
{
    match s {
        Some(x) => Some(
            ScoringResult {
                score: x.score.clone(),
                confidence: clone_opt_string(&x.confidence),
                notes: clone_opt_string(&x.notes),
                raw_score: clone_opt_string(&x.raw_score),
                max_score: clone_opt_string(&x.max_score),
            },
        ),
        None => None,
    }
}

/// Clone a suite row, keeping its view.
pub fn clone_suite_row(r: &SuiteRow) -> (c: SuiteRow)
    ensures
        c.deep_view() == r.deep_view(),
{
    SuiteRow {
        id: r.id.clone(),
        name: r.name.clone(),
        description: clone_opt_string(&r.description),
        system_prompt: r.system_prompt.clone(),
        judge_system_prompt: clone_opt_string(&r.judge_system_prompt),
        created_at: r.created_at,
        updated_at: r.updated_at,
    }
}

/// Clone a case row, keeping its view.
pub fn clone_case_row(r: &CaseRow) -> (c: CaseRow)
    ensures
        c.deep_view() == r.deep_view(),
{
    CaseRow {
        id: r.id.clone(),
        test_suite_id: r.test_suite_id.clone(),
        prompt: r.prompt.clone(),
        expected_output: clone_opt_string(&r.expected_output),
        scoring_method: r.scoring_method.clone(),
        weight: r.weight.clone(),
        category: clone_opt_string(&r.category),
        difficulty: clone_opt_string(&r.difficulty),
        tags: clone_strings(&r.tags),
        sort_order: r.sort_order,
    }
}

/// Clone a run row, keeping its view.
pub fn clone_run_row(r: &RunRow) -> (c: RunRow)
    ensures
        c.deep_view() == r.deep_view(),
{
    RunRow {
        id: r.id.clone(),
        test_suite_id: r.test_suite_id.clone(),
        test_suite_name: r.test_suite_name.clone(),
        models: clone_strings(&r.models),
        parameters: clone_parameters(&r.parameters),
        status: r.status.clone(),
        started_at: r.started_at,
        completed_at: r.completed_at,
        judge_model: clone_opt_string(&r.judge_model),
    }
}

/// Clone a result row, keeping its view.
pub fn clone_result_row(r: &ResultRow) -> (c: ResultRow)
    ensures
        c.deep_view() == r.deep_view(),
{
    ResultRow {
        run_id: r.run_id.clone(),
        test_case_id: r.test_case_id.clone(),
        model_id: r.model_id.clone(),
        response: r.response.clone(),
        token_count: r.token_count,
        latency_ms: r.latency_ms,
        status: r.status.clone(),
        error: clone_opt_string(&r.error),
        score: clone_opt_score(&r.score),
        streamed_content: clone_opt_string(&r.streamed_content),
    }
}

/// Clone the app-state pointer, keeping its view.
pub fn clone_app_state(s: &AppState) -> (r: AppState)
    ensures
        r.deep_view() == s.deep_view(),
{
    AppState {
        active_test_suite_id: clone_opt_string(&s.active_test_suite_id),
        current_run_id: clone_opt_string(&s.current_run_id),
    }
}

} // verus!
