//! Verified storage core of a benchmarking tool.
//!
//! The crate models the normalized relational store (test suites with their
//! ordered cases, runs with their results, the singleton app-state pointer
//! and the schema-version record) as an in-memory [`store::Store`], and
//! proves the repository operations, the legacy snapshot facade and the
//! one-time schema migration against that model.  Reading the rows from the
//! database file and writing them back is plain I/O and lives outside the
//! library.

use vstd::prelude::*;

pub mod clock;
pub mod codec;
pub mod laws;
pub mod model;
pub mod rows;
pub mod seqs;
pub mod store;

pub use clock::chrono_now;
pub use model::AppState;
pub use model::BenchmakerDb;
pub use model::ModelParameters;
pub use model::RunResult;
pub use model::ScoringResult;
pub use model::TestCase;
pub use model::TestCaseMetadata;
pub use model::TestCaseResult;
pub use model::TestSuite;
pub use rows::CaseRow;
pub use rows::LegacySnapshot;
pub use rows::ResultRow;
pub use rows::RunRow;
pub use rows::SuiteRow;
pub use store::CURRENT_SCHEMA_VERSION;
pub use store::Store;
pub use store::StoreError;
pub use codec::check_number;
pub use codec::decode_parameters;
pub use codec::decode_score;
pub use codec::decode_string_list;
pub use codec::encode_parameters;
pub use codec::encode_score;
pub use codec::encode_string_list;

verus! {

} // verus!
