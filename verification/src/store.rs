//! The in-memory image of the normalized store, and the verified
//! repository, snapshot and migration operations over it.
//!
//! A [`Store`] holds the rows of every table plus the two singleton records
//! and the legacy aggregate table, exactly as they sit in the database file.
//! Every operation states its effect over [`StoreV`], the mathematical image
//! of the store, and preserves the well-formedness invariant [`StoreV::wf`]:
//! primary keys are unique, child rows reference existing parents, and the
//! sort positions of a suite's cases increase along the table.

use vstd::prelude::*;

use crate::model::AppState;
use crate::model::AppStateV;
use crate::model::BenchmakerDb;
use crate::model::BenchmakerDbV;
use crate::rows::CaseRow;
use crate::rows::CaseRowV;
use crate::rows::LegacySnapshot;
use crate::rows::LegacySnapshotV;
use crate::rows::ResultRow;
use crate::rows::ResultRowV;
use crate::rows::RunRow;
use crate::rows::RunRowV;
use crate::rows::SuiteRow;
use crate::rows::SuiteRowV;
use crate::rows::clone_app_state;
use crate::rows::clone_case_row;
use crate::rows::clone_opt_score;
use crate::rows::clone_opt_string;
use crate::rows::clone_parameters;
use crate::rows::clone_result_row;
use crate::rows::clone_run_row;
use crate::rows::clone_strings;
use crate::rows::clone_suite_row;
use crate::seqs::lemma_deep_view_insert;
use crate::seqs::lemma_deep_view_push;
use crate::seqs::lemma_take_all;
use crate::seqs::lemma_take_step;

verus! {

/// The schema generation this library writes.
pub const CURRENT_SCHEMA_VERSION: i64 = 2;

/// Why a store operation refused to run.  Storage-level failures (an
/// unreachable or corrupt database file) are raised by the I/O layer that
/// loads and persists the [`Store`], not here.
#[derive(Debug, Clone, PartialEq)]
pub enum StoreError {
    /// A supplied id collides: a case list repeats an id or collides with a
    /// case row of another suite, or a snapshot repeats a suite or run id;
    /// the table's primary key refuses it.
    DuplicateId,
    /// The legacy aggregate payload did not decode; the carried text is the
    /// decoder's message, reported verbatim.
    SnapshotDecode(String),
}

/// The mathematical image of a [`Store`].
#[verifier::ext_equal]
pub struct StoreV {
    pub version: Option<i64>,
    pub suites: Seq<SuiteRowV>,
    pub cases: Seq<CaseRowV>,
    pub runs: Seq<RunRowV>,
    pub results: Seq<ResultRowV>,
    pub app_state: Option<AppStateV>,
    pub legacy: Option<Option<LegacySnapshotV>>,
}

/// Some suite row carries this id.
pub open spec fn has_suite(rows: Seq<SuiteRowV>, id: Seq<char>) -> bool {
    exists|i: int| 0 <= i < rows.len() && rows[i].id == id
}

/// Some run row carries this id.
pub open spec fn has_run(rows: Seq<RunRowV>, id: Seq<char>) -> bool {
    exists|i: int| 0 <= i < rows.len() && rows[i].id == id
}

/// No two suite rows share an id.
pub open spec fn suites_distinct(rows: Seq<SuiteRowV>) -> bool {
    forall|i: int, j: int|
        0 <= i < j < rows.len() ==> #[trigger] rows[i].id != #[trigger] rows[j].id
}

/// No two case rows share an id.
pub open spec fn cases_distinct(rows: Seq<CaseRowV>) -> bool {
    forall|i: int, j: int|
        0 <= i < j < rows.len() ==> #[trigger] rows[i].id != #[trigger] rows[j].id
}

/// No two run rows share an id.
pub open spec fn runs_distinct(rows: Seq<RunRowV>) -> bool {
    forall|i: int, j: int|
        0 <= i < j < rows.len() ==> #[trigger] rows[i].id != #[trigger] rows[j].id
}

/// Within each suite, sort positions increase along the table.
pub open spec fn cases_ordered(rows: Seq<CaseRowV>) -> bool {
    forall|i: int, j: int|
        0 <= i < j < rows.len() && (#[trigger] rows[i]).test_suite_id == (
        #[trigger] rows[j]).test_suite_id ==> rows[i].sort_order < rows[j].sort_order
}

impl StoreV {
    /// Well-formedness: unique primary keys, referential integrity, and
    /// per-suite ordering of the case table.
    pub open spec fn wf(self) -> bool {
        &&& suites_distinct(self.suites)
        &&& cases_distinct(self.cases)
        &&& runs_distinct(self.runs)
        &&& cases_ordered(self.cases)
        &&& forall|i: int|
            0 <= i < self.cases.len() ==> has_suite(
                self.suites,
                (#[trigger] self.cases[i]).test_suite_id,
            )
        &&& forall|i: int|
            0 <= i < self.results.len() ==> has_run(
                self.runs,
                (#[trigger] self.results[i]).run_id,
            )
    }

    /// A freshly created database file: no tables, no rows.
    pub open spec fn empty() -> StoreV {
        StoreV {
            version: None,
            suites: Seq::empty(),
            cases: Seq::empty(),
            runs: Seq::empty(),
            results: Seq::empty(),
            app_state: None,
            legacy: None,
        }
    }
}

// ------------------------------------------------------------------
// Row removal, as the delete statements and cascades perform it.
// ------------------------------------------------------------------

/// The suite table without the rows carrying `id`.
pub open spec fn remove_suite(rows: Seq<SuiteRowV>, id: Seq<char>) -> Seq<SuiteRowV>
    decreases rows.len(),
{
    if rows.len() == 0 {
        rows
    } else {
        let rest = remove_suite(rows.drop_last(), id);
        if rows.last().id == id {
            rest
        } else {
            rest.push(rows.last())
        }
    }
}

/// The case table without the rows of suite `sid` (the cascade of a suite
/// delete, and the first half of a replace-children save).
pub open spec fn remove_cases_of(rows: Seq<CaseRowV>, sid: Seq<char>) -> Seq<CaseRowV>
    decreases rows.len(),
{
    if rows.len() == 0 {
        rows
    } else {
        let rest = remove_cases_of(rows.drop_last(), sid);
        if rows.last().test_suite_id == sid {
            rest
        } else {
            rest.push(rows.last())
        }
    }
}

/// The case table without the rows carrying case id `cid`.
pub open spec fn remove_case(rows: Seq<CaseRowV>, cid: Seq<char>) -> Seq<CaseRowV>
    decreases rows.len(),
{
    if rows.len() == 0 {
        rows
    } else {
        let rest = remove_case(rows.drop_last(), cid);
        if rows.last().id == cid {
            rest
        } else {
            rest.push(rows.last())
        }
    }
}

/// The run table without the rows carrying `id`.
pub open spec fn remove_run(rows: Seq<RunRowV>, id: Seq<char>) -> Seq<RunRowV>
    decreases rows.len(),
{
    if rows.len() == 0 {
        rows
    } else {
        let rest = remove_run(rows.drop_last(), id);
        if rows.last().id == id {
            rest
        } else {
            rest.push(rows.last())
        }
    }
}

/// The result table without the rows of run `rid` (the cascade of a run
/// delete, and the first half of a replace-children save).
pub open spec fn remove_results_of(rows: Seq<ResultRowV>, rid: Seq<char>) -> Seq<ResultRowV>
    decreases rows.len(),
{
    if rows.len() == 0 {
        rows
    } else {
        let rest = remove_results_of(rows.drop_last(), rid);
        if rows.last().run_id == rid {
            rest
        } else {
            rest.push(rows.last())
        }
    }
}

// ------------------------------------------------------------------
// Facts about the removals.
// ------------------------------------------------------------------

/// Every row surviving `remove_suite` has `id` different from the key.
pub proof fn lemma_remove_suite_pred(rows: Seq<SuiteRowV>, id: Seq<char>)
    ensures
        forall|k: int|
            0 <= k < remove_suite(rows, id).len() ==> (#[trigger] remove_suite(rows, id)[k]).id != id,
    decreases rows.len(),
{
    if rows.len() > 0 {
        lemma_remove_suite_pred(rows.drop_last(), id);
    }
}

/// Every row surviving `remove_suite` is one of the original rows.
pub proof fn lemma_remove_suite_member(rows: Seq<SuiteRowV>, id: Seq<char>)
    ensures
        forall|k: int| #![trigger remove_suite(rows, id)[k]]
            0 <= k < remove_suite(rows, id).len() ==> exists|i: int| #![trigger rows[i]]
                0 <= i < rows.len() && rows[i] == remove_suite(rows, id)[k],
    decreases rows.len(),
{
    if rows.len() > 0 {
        lemma_remove_suite_member(rows.drop_last(), id);
        let rest = remove_suite(rows.drop_last(), id);
        assert forall|k: int| #![trigger remove_suite(rows, id)[k]] 0 <= k < remove_suite(rows, id).len() implies exists|i: int| #![trigger rows[i]]
            0 <= i < rows.len() && rows[i] == remove_suite(rows, id)[k] by {
            if k < rest.len() {
                assert(remove_suite(rows, id)[k] == rest[k]);
                let i = choose|i: int| #![trigger rows.drop_last()[i]]
                    0 <= i < rows.drop_last().len() && rows.drop_last()[i] == rest[k];
                assert(rows[i] == remove_suite(rows, id)[k]);
            } else {
                assert(rows[rows.len() - 1] == remove_suite(rows, id)[k]);
            }
        }
    }
}

/// Every original row with another key survives `remove_suite`.
pub proof fn lemma_remove_suite_retain(rows: Seq<SuiteRowV>, id: Seq<char>)
    ensures
        forall|i: int| #![trigger rows[i]]
            0 <= i < rows.len() && rows[i].id != id ==> exists|k: int|
                #![trigger remove_suite(rows, id)[k]]
                0 <= k < remove_suite(rows, id).len() && remove_suite(rows, id)[k] == rows[i],
    decreases rows.len(),
{
    if rows.len() > 0 {
        lemma_remove_suite_retain(rows.drop_last(), id);
        let rest = remove_suite(rows.drop_last(), id);
        assert forall|i: int| #![trigger rows[i]]
            0 <= i < rows.len() && rows[i].id != id implies exists|k: int|
            #![trigger remove_suite(rows, id)[k]]
            0 <= k < remove_suite(rows, id).len() && remove_suite(rows, id)[k] == rows[i] by {
            if i < rows.len() - 1 {
                assert(rows.drop_last()[i] == rows[i]);
                let k = choose|k: int| #![trigger rest[k]]
                    0 <= k < rest.len() && rest[k] == rows.drop_last()[i];
                assert(remove_suite(rows, id)[k] == rows[i]);
            } else {
                assert(remove_suite(rows, id)[remove_suite(rows, id).len() - 1] == rows[i]);
            }
        }
    }
}

/// `remove_suite` keeps ids unique.
pub proof fn lemma_remove_suite_distinct(rows: Seq<SuiteRowV>, id: Seq<char>)
    requires
        suites_distinct(rows),
    ensures
        suites_distinct(remove_suite(rows, id)),
    decreases rows.len(),
{
    if rows.len() > 0 {
        assert forall|i: int, j: int| 0 <= i < j < rows.drop_last().len() implies (
        #[trigger] rows.drop_last()[i]).id != (#[trigger] rows.drop_last()[j]).id by {
            assert(rows[i].id != rows[j].id);
        }
        lemma_remove_suite_distinct(rows.drop_last(), id);
        lemma_remove_suite_member(rows.drop_last(), id);
        let rest = remove_suite(rows.drop_last(), id);
        if rows.last().id != id {
            assert forall|i: int, j: int| 0 <= i < j < remove_suite(rows, id).len() implies (
            #[trigger] remove_suite(rows, id)[i]).id != (#[trigger] remove_suite(rows, id)[j]).id by {
                if j < rest.len() {
                    assert(rest[i].id != rest[j].id);
                } else {
                    assert(remove_suite(rows, id)[j] == rows.last());
                    assert(remove_suite(rows, id)[i] == rest[i]);
                    let m = choose|m: int| #![trigger rows.drop_last()[m]]
                        0 <= m < rows.drop_last().len() && rows.drop_last()[m] == rest[i];
                    assert(rows[m].id != rows[rows.len() - 1].id);
                }
            }
        }
    }
}

/// Every row surviving `remove_cases_of` has `test_suite_id` different from the key.
pub proof fn lemma_remove_cases_of_pred(rows: Seq<CaseRowV>, sid: Seq<char>)
    ensures
        forall|k: int|
            0 <= k < remove_cases_of(rows, sid).len() ==> (#[trigger] remove_cases_of(rows, sid)[k]).test_suite_id != sid,
    decreases rows.len(),
{
    if rows.len() > 0 {
        lemma_remove_cases_of_pred(rows.drop_last(), sid);
    }
}

/// Every row surviving `remove_cases_of` is one of the original rows.
pub proof fn lemma_remove_cases_of_member(rows: Seq<CaseRowV>, sid: Seq<char>)
    ensures
        forall|k: int| #![trigger remove_cases_of(rows, sid)[k]]
            0 <= k < remove_cases_of(rows, sid).len() ==> exists|i: int| #![trigger rows[i]]
                0 <= i < rows.len() && rows[i] == remove_cases_of(rows, sid)[k],
    decreases rows.len(),
{
    if rows.len() > 0 {
        lemma_remove_cases_of_member(rows.drop_last(), sid);
        let rest = remove_cases_of(rows.drop_last(), sid);
        assert forall|k: int| #![trigger remove_cases_of(rows, sid)[k]] 0 <= k < remove_cases_of(rows, sid).len() implies exists|i: int| #![trigger rows[i]]
            0 <= i < rows.len() && rows[i] == remove_cases_of(rows, sid)[k] by {
            if k < rest.len() {
                assert(remove_cases_of(rows, sid)[k] == rest[k]);
                let i = choose|i: int| #![trigger rows.drop_last()[i]]
                    0 <= i < rows.drop_last().len() && rows.drop_last()[i] == rest[k];
                assert(rows[i] == remove_cases_of(rows, sid)[k]);
            } else {
                assert(rows[rows.len() - 1] == remove_cases_of(rows, sid)[k]);
            }
        }
    }
}

/// Every original row with another key survives `remove_cases_of`.
pub proof fn lemma_remove_cases_of_retain(rows: Seq<CaseRowV>, sid: Seq<char>)
    ensures
        forall|i: int| #![trigger rows[i]]
            0 <= i < rows.len() && rows[i].test_suite_id != sid ==> exists|k: int|
                #![trigger remove_cases_of(rows, sid)[k]]
                0 <= k < remove_cases_of(rows, sid).len() && remove_cases_of(rows, sid)[k] == rows[i],
    decreases rows.len(),
{
    if rows.len() > 0 {
        lemma_remove_cases_of_retain(rows.drop_last(), sid);
        let rest = remove_cases_of(rows.drop_last(), sid);
        assert forall|i: int| #![trigger rows[i]]
            0 <= i < rows.len() && rows[i].test_suite_id != sid implies exists|k: int|
            #![trigger remove_cases_of(rows, sid)[k]]
            0 <= k < remove_cases_of(rows, sid).len() && remove_cases_of(rows, sid)[k] == rows[i] by {
            if i < rows.len() - 1 {
                assert(rows.drop_last()[i] == rows[i]);
                let k = choose|k: int| #![trigger rest[k]]
                    0 <= k < rest.len() && rest[k] == rows.drop_last()[i];
                assert(remove_cases_of(rows, sid)[k] == rows[i]);
            } else {
                assert(remove_cases_of(rows, sid)[remove_cases_of(rows, sid).len() - 1] == rows[i]);
            }
        }
    }
}

/// `remove_cases_of` keeps ids unique.
pub proof fn lemma_remove_cases_of_distinct(rows: Seq<CaseRowV>, sid: Seq<char>)
    requires
        cases_distinct(rows),
    ensures
        cases_distinct(remove_cases_of(rows, sid)),
    decreases rows.len(),
{
    if rows.len() > 0 {
        assert forall|i: int, j: int| 0 <= i < j < rows.drop_last().len() implies (
        #[trigger] rows.drop_last()[i]).id != (#[trigger] rows.drop_last()[j]).id by {
            assert(rows[i].id != rows[j].id);
        }
        lemma_remove_cases_of_distinct(rows.drop_last(), sid);
        lemma_remove_cases_of_member(rows.drop_last(), sid);
        let rest = remove_cases_of(rows.drop_last(), sid);
        if rows.last().test_suite_id != sid {
            assert forall|i: int, j: int| 0 <= i < j < remove_cases_of(rows, sid).len() implies (
            #[trigger] remove_cases_of(rows, sid)[i]).id != (#[trigger] remove_cases_of(rows, sid)[j]).id by {
                if j < rest.len() {
                    assert(rest[i].id != rest[j].id);
                } else {
                    assert(remove_cases_of(rows, sid)[j] == rows.last());
                    assert(remove_cases_of(rows, sid)[i] == rest[i]);
                    let m = choose|m: int| #![trigger rows.drop_last()[m]]
                        0 <= m < rows.drop_last().len() && rows.drop_last()[m] == rest[i];
                    assert(rows[m].id != rows[rows.len() - 1].id);
                }
            }
        }
    }
}

/// `remove_cases_of` keeps the per-suite ordering of the case table.
pub proof fn lemma_remove_cases_of_ordered(rows: Seq<CaseRowV>, sid: Seq<char>)
    requires
        cases_ordered(rows),
    ensures
        cases_ordered(remove_cases_of(rows, sid)),
    decreases rows.len(),
{
    if rows.len() > 0 {
        assert forall|i: int, j: int|
            0 <= i < j < rows.drop_last().len() && (#[trigger] rows.drop_last()[i]).test_suite_id
                == (#[trigger] rows.drop_last()[j]).test_suite_id implies rows.drop_last()[
        i].sort_order < rows.drop_last()[j].sort_order by {
            assert(rows[i].sort_order < rows[j].sort_order);
        }
        lemma_remove_cases_of_ordered(rows.drop_last(), sid);
        lemma_remove_cases_of_member(rows.drop_last(), sid);
        let rest = remove_cases_of(rows.drop_last(), sid);
        if rows.last().test_suite_id != sid {
            assert forall|i: int, j: int|
                0 <= i < j < remove_cases_of(rows, sid).len() && (#[trigger] remove_cases_of(rows, sid)[i]).test_suite_id == (
                #[trigger] remove_cases_of(rows, sid)[j]).test_suite_id implies remove_cases_of(rows, sid)[i].sort_order < remove_cases_of(rows, sid)[
            j].sort_order by {
                if j < rest.len() {
                } else {
                    assert(remove_cases_of(rows, sid)[j] == rows.last());
                    assert(remove_cases_of(rows, sid)[i] == rest[i]);
                    let m = choose|m: int| #![trigger rows.drop_last()[m]]
                        0 <= m < rows.drop_last().len() && rows.drop_last()[m] == rest[i];
                    assert(rows[m].sort_order < rows[rows.len() - 1].sort_order);
                }
            }
        }
    }
}

/// Every row surviving `remove_case` has `id` different from the key.
pub proof fn lemma_remove_case_pred(rows: Seq<CaseRowV>, cid: Seq<char>)
    ensures
        forall|k: int|
            0 <= k < remove_case(rows, cid).len() ==> (#[trigger] remove_case(rows, cid)[k]).id != cid,
    decreases rows.len(),
{
    if rows.len() > 0 {
        lemma_remove_case_pred(rows.drop_last(), cid);
    }
}

/// Every row surviving `remove_case` is one of the original rows.
pub proof fn lemma_remove_case_member(rows: Seq<CaseRowV>, cid: Seq<char>)
    ensures
        forall|k: int| #![trigger remove_case(rows, cid)[k]]
            0 <= k < remove_case(rows, cid).len() ==> exists|i: int| #![trigger rows[i]]
                0 <= i < rows.len() && rows[i] == remove_case(rows, cid)[k],
    decreases rows.len(),
{
    if rows.len() > 0 {
        lemma_remove_case_member(rows.drop_last(), cid);
        let rest = remove_case(rows.drop_last(), cid);
        assert forall|k: int| #![trigger remove_case(rows, cid)[k]] 0 <= k < remove_case(rows, cid).len() implies exists|i: int| #![trigger rows[i]]
            0 <= i < rows.len() && rows[i] == remove_case(rows, cid)[k] by {
            if k < rest.len() {
                assert(remove_case(rows, cid)[k] == rest[k]);
                let i = choose|i: int| #![trigger rows.drop_last()[i]]
                    0 <= i < rows.drop_last().len() && rows.drop_last()[i] == rest[k];
                assert(rows[i] == remove_case(rows, cid)[k]);
            } else {
                assert(rows[rows.len() - 1] == remove_case(rows, cid)[k]);
            }
        }
    }
}

/// Every original row with another key survives `remove_case`.
pub proof fn lemma_remove_case_retain(rows: Seq<CaseRowV>, cid: Seq<char>)
    ensures
        forall|i: int| #![trigger rows[i]]
            0 <= i < rows.len() && rows[i].id != cid ==> exists|k: int|
                #![trigger remove_case(rows, cid)[k]]
                0 <= k < remove_case(rows, cid).len() && remove_case(rows, cid)[k] == rows[i],
    decreases rows.len(),
{
    if rows.len() > 0 {
        lemma_remove_case_retain(rows.drop_last(), cid);
        let rest = remove_case(rows.drop_last(), cid);
        assert forall|i: int| #![trigger rows[i]]
            0 <= i < rows.len() && rows[i].id != cid implies exists|k: int|
            #![trigger remove_case(rows, cid)[k]]
            0 <= k < remove_case(rows, cid).len() && remove_case(rows, cid)[k] == rows[i] by {
            if i < rows.len() - 1 {
                assert(rows.drop_last()[i] == rows[i]);
                let k = choose|k: int| #![trigger rest[k]]
                    0 <= k < rest.len() && rest[k] == rows.drop_last()[i];
                assert(remove_case(rows, cid)[k] == rows[i]);
            } else {
                assert(remove_case(rows, cid)[remove_case(rows, cid).len() - 1] == rows[i]);
            }
        }
    }
}

/// `remove_case` keeps ids unique.
pub proof fn lemma_remove_case_distinct(rows: Seq<CaseRowV>, cid: Seq<char>)
    requires
        cases_distinct(rows),
    ensures
        cases_distinct(remove_case(rows, cid)),
    decreases rows.len(),
{
    if rows.len() > 0 {
        assert forall|i: int, j: int| 0 <= i < j < rows.drop_last().len() implies (
        #[trigger] rows.drop_last()[i]).id != (#[trigger] rows.drop_last()[j]).id by {
            assert(rows[i].id != rows[j].id);
        }
        lemma_remove_case_distinct(rows.drop_last(), cid);
        lemma_remove_case_member(rows.drop_last(), cid);
        let rest = remove_case(rows.drop_last(), cid);
        if rows.last().id != cid {
            assert forall|i: int, j: int| 0 <= i < j < remove_case(rows, cid).len() implies (
            #[trigger] remove_case(rows, cid)[i]).id != (#[trigger] remove_case(rows, cid)[j]).id by {
                if j < rest.len() {
                    assert(rest[i].id != rest[j].id);
                } else {
                    assert(remove_case(rows, cid)[j] == rows.last());
                    assert(remove_case(rows, cid)[i] == rest[i]);
                    let m = choose|m: int| #![trigger rows.drop_last()[m]]
                        0 <= m < rows.drop_last().len() && rows.drop_last()[m] == rest[i];
                    assert(rows[m].id != rows[rows.len() - 1].id);
                }
            }
        }
    }
}

/// `remove_case` keeps the per-suite ordering of the case table.
pub proof fn lemma_remove_case_ordered(rows: Seq<CaseRowV>, cid: Seq<char>)
    requires
        cases_ordered(rows),
    ensures
        cases_ordered(remove_case(rows, cid)),
    decreases rows.len(),
{
    if rows.len() > 0 {
        assert forall|i: int, j: int|
            0 <= i < j < rows.drop_last().len() && (#[trigger] rows.drop_last()[i]).test_suite_id
                == (#[trigger] rows.drop_last()[j]).test_suite_id implies rows.drop_last()[
        i].sort_order < rows.drop_last()[j].sort_order by {
            assert(rows[i].sort_order < rows[j].sort_order);
        }
        lemma_remove_case_ordered(rows.drop_last(), cid);
        lemma_remove_case_member(rows.drop_last(), cid);
        let rest = remove_case(rows.drop_last(), cid);
        if rows.last().id != cid {
            assert forall|i: int, j: int|
                0 <= i < j < remove_case(rows, cid).len() && (#[trigger] remove_case(rows, cid)[i]).test_suite_id == (
                #[trigger] remove_case(rows, cid)[j]).test_suite_id implies remove_case(rows, cid)[i].sort_order < remove_case(rows, cid)[
            j].sort_order by {
                if j < rest.len() {
                } else {
                    assert(remove_case(rows, cid)[j] == rows.last());
                    assert(remove_case(rows, cid)[i] == rest[i]);
                    let m = choose|m: int| #![trigger rows.drop_last()[m]]
                        0 <= m < rows.drop_last().len() && rows.drop_last()[m] == rest[i];
                    assert(rows[m].sort_order < rows[rows.len() - 1].sort_order);
                }
            }
        }
    }
}

/// Every row surviving `remove_run` has `id` different from the key.
pub proof fn lemma_remove_run_pred(rows: Seq<RunRowV>, id: Seq<char>)
    ensures
        forall|k: int|
            0 <= k < remove_run(rows, id).len() ==> (#[trigger] remove_run(rows, id)[k]).id != id,
    decreases rows.len(),
{
    if rows.len() > 0 {
        lemma_remove_run_pred(rows.drop_last(), id);
    }
}

/// Every row surviving `remove_run` is one of the original rows.
pub proof fn lemma_remove_run_member(rows: Seq<RunRowV>, id: Seq<char>)
    ensures
        forall|k: int| #![trigger remove_run(rows, id)[k]]
            0 <= k < remove_run(rows, id).len() ==> exists|i: int| #![trigger rows[i]]
                0 <= i < rows.len() && rows[i] == remove_run(rows, id)[k],
    decreases rows.len(),
{
    if rows.len() > 0 {
        lemma_remove_run_member(rows.drop_last(), id);
        let rest = remove_run(rows.drop_last(), id);
        assert forall|k: int| #![trigger remove_run(rows, id)[k]] 0 <= k < remove_run(rows, id).len() implies exists|i: int| #![trigger rows[i]]
            0 <= i < rows.len() && rows[i] == remove_run(rows, id)[k] by {
            if k < rest.len() {
                assert(remove_run(rows, id)[k] == rest[k]);
                let i = choose|i: int| #![trigger rows.drop_last()[i]]
                    0 <= i < rows.drop_last().len() && rows.drop_last()[i] == rest[k];
                assert(rows[i] == remove_run(rows, id)[k]);
            } else {
                assert(rows[rows.len() - 1] == remove_run(rows, id)[k]);
            }
        }
    }
}

/// Every original row with another key survives `remove_run`.
pub proof fn lemma_remove_run_retain(rows: Seq<RunRowV>, id: Seq<char>)
    ensures
        forall|i: int| #![trigger rows[i]]
            0 <= i < rows.len() && rows[i].id != id ==> exists|k: int|
                #![trigger remove_run(rows, id)[k]]
                0 <= k < remove_run(rows, id).len() && remove_run(rows, id)[k] == rows[i],
    decreases rows.len(),
{
    if rows.len() > 0 {
        lemma_remove_run_retain(rows.drop_last(), id);
        let rest = remove_run(rows.drop_last(), id);
        assert forall|i: int| #![trigger rows[i]]
            0 <= i < rows.len() && rows[i].id != id implies exists|k: int|
            #![trigger remove_run(rows, id)[k]]
            0 <= k < remove_run(rows, id).len() && remove_run(rows, id)[k] == rows[i] by {
            if i < rows.len() - 1 {
                assert(rows.drop_last()[i] == rows[i]);
                let k = choose|k: int| #![trigger rest[k]]
                    0 <= k < rest.len() && rest[k] == rows.drop_last()[i];
                assert(remove_run(rows, id)[k] == rows[i]);
            } else {
                assert(remove_run(rows, id)[remove_run(rows, id).len() - 1] == rows[i]);
            }
        }
    }
}

/// `remove_run` keeps ids unique.
pub proof fn lemma_remove_run_distinct(rows: Seq<RunRowV>, id: Seq<char>)
    requires
        runs_distinct(rows),
    ensures
        runs_distinct(remove_run(rows, id)),
    decreases rows.len(),
{
    if rows.len() > 0 {
        assert forall|i: int, j: int| 0 <= i < j < rows.drop_last().len() implies (
        #[trigger] rows.drop_last()[i]).id != (#[trigger] rows.drop_last()[j]).id by {
            assert(rows[i].id != rows[j].id);
        }
        lemma_remove_run_distinct(rows.drop_last(), id);
        lemma_remove_run_member(rows.drop_last(), id);
        let rest = remove_run(rows.drop_last(), id);
        if rows.last().id != id {
            assert forall|i: int, j: int| 0 <= i < j < remove_run(rows, id).len() implies (
            #[trigger] remove_run(rows, id)[i]).id != (#[trigger] remove_run(rows, id)[j]).id by {
                if j < rest.len() {
                    assert(rest[i].id != rest[j].id);
                } else {
                    assert(remove_run(rows, id)[j] == rows.last());
                    assert(remove_run(rows, id)[i] == rest[i]);
                    let m = choose|m: int| #![trigger rows.drop_last()[m]]
                        0 <= m < rows.drop_last().len() && rows.drop_last()[m] == rest[i];
                    assert(rows[m].id != rows[rows.len() - 1].id);
                }
            }
        }
    }
}

/// Every row surviving `remove_results_of` has `run_id` different from the key.
pub proof fn lemma_remove_results_of_pred(rows: Seq<ResultRowV>, rid: Seq<char>)
    ensures
        forall|k: int|
            0 <= k < remove_results_of(rows, rid).len() ==> (#[trigger] remove_results_of(rows, rid)[k]).run_id != rid,
    decreases rows.len(),
{
    if rows.len() > 0 {
        lemma_remove_results_of_pred(rows.drop_last(), rid);
    }
}

/// Every row surviving `remove_results_of` is one of the original rows.
pub proof fn lemma_remove_results_of_member(rows: Seq<ResultRowV>, rid: Seq<char>)
    ensures
        forall|k: int| #![trigger remove_results_of(rows, rid)[k]]
            0 <= k < remove_results_of(rows, rid).len() ==> exists|i: int| #![trigger rows[i]]
                0 <= i < rows.len() && rows[i] == remove_results_of(rows, rid)[k],
    decreases rows.len(),
{
    if rows.len() > 0 {
        lemma_remove_results_of_member(rows.drop_last(), rid);
        let rest = remove_results_of(rows.drop_last(), rid);
        assert forall|k: int| #![trigger remove_results_of(rows, rid)[k]] 0 <= k < remove_results_of(rows, rid).len() implies exists|i: int| #![trigger rows[i]]
            0 <= i < rows.len() && rows[i] == remove_results_of(rows, rid)[k] by {
            if k < rest.len() {
                assert(remove_results_of(rows, rid)[k] == rest[k]);
                let i = choose|i: int| #![trigger rows.drop_last()[i]]
                    0 <= i < rows.drop_last().len() && rows.drop_last()[i] == rest[k];
                assert(rows[i] == remove_results_of(rows, rid)[k]);
            } else {
                assert(rows[rows.len() - 1] == remove_results_of(rows, rid)[k]);
            }
        }
    }
}

/// Every original row with another key survives `remove_results_of`.
pub proof fn lemma_remove_results_of_retain(rows: Seq<ResultRowV>, rid: Seq<char>)
    ensures
        forall|i: int| #![trigger rows[i]]
            0 <= i < rows.len() && rows[i].run_id != rid ==> exists|k: int|
                #![trigger remove_results_of(rows, rid)[k]]
                0 <= k < remove_results_of(rows, rid).len() && remove_results_of(rows, rid)[k] == rows[i],
    decreases rows.len(),
{
    if rows.len() > 0 {
        lemma_remove_results_of_retain(rows.drop_last(), rid);
        let rest = remove_results_of(rows.drop_last(), rid);
        assert forall|i: int| #![trigger rows[i]]
            0 <= i < rows.len() && rows[i].run_id != rid implies exists|k: int|
            #![trigger remove_results_of(rows, rid)[k]]
            0 <= k < remove_results_of(rows, rid).len() && remove_results_of(rows, rid)[k] == rows[i] by {
            if i < rows.len() - 1 {
                assert(rows.drop_last()[i] == rows[i]);
                let k = choose|k: int| #![trigger rest[k]]
                    0 <= k < rest.len() && rest[k] == rows.drop_last()[i];
                assert(remove_results_of(rows, rid)[k] == rows[i]);
            } else {
                assert(remove_results_of(rows, rid)[remove_results_of(rows, rid).len() - 1] == rows[i]);
            }
        }
    }
}

// ------------------------------------------------------------------
// Upsert semantics of the save operations.
// ------------------------------------------------------------------

use crate::model::TestCase;
use crate::model::TestCaseV;
use crate::model::TestCaseMetadata;
use crate::model::TestCaseMetadataV;
use crate::model::TestCaseResult;
use crate::model::TestSuite;
use crate::model::TestSuiteV;
use crate::model::RunResult;
use crate::model::RunResultV;
use crate::model::TestCaseResultV;

/// The suite row a fresh insert writes.
pub open spec fn new_suite_row(s: TestSuiteV) -> SuiteRowV {
    SuiteRowV {
        id: s.id,
        name: s.name,
        description: s.description,
        system_prompt: s.system_prompt,
        judge_system_prompt: s.judge_system_prompt,
        created_at: s.created_at,
        updated_at: s.updated_at,
    }
}

/// The suite row an upsert leaves on conflict: every mutable field is
/// overwritten, the creation time of the stored row is kept.
pub open spec fn merge_suite_row(old_row: SuiteRowV, s: TestSuiteV) -> SuiteRowV {
    SuiteRowV { created_at: old_row.created_at, ..new_suite_row(s) }
}

/// Every row of the suite table after the conflict branch of the upsert.
pub open spec fn upsert_suite_map(rows: Seq<SuiteRowV>, s: TestSuiteV) -> Seq<SuiteRowV> {
    Seq::new(
        rows.len(),
        |i: int|
            if rows[i].id == s.id {
                merge_suite_row(rows[i], s)
            } else {
                rows[i]
            },
    )
}

/// The suite table after the upsert of `s`.
pub open spec fn upsert_suite(rows: Seq<SuiteRowV>, s: TestSuiteV) -> Seq<SuiteRowV> {
    if has_suite(rows, s.id) {
        upsert_suite_map(rows, s)
    } else {
        rows.push(new_suite_row(s))
    }
}

/// The case row written for the case at position `sort` of a suite's list.
pub open spec fn case_row_at(c: TestCaseV, sid: Seq<char>, sort: i64) -> CaseRowV {
    CaseRowV {
        id: c.id,
        test_suite_id: sid,
        prompt: c.prompt,
        expected_output: c.expected_output,
        scoring_method: c.scoring_method,
        weight: c.weight,
        category: c.metadata.category,
        difficulty: c.metadata.difficulty,
        tags: c.metadata.tags,
        sort_order: sort,
    }
}

/// The case rows a full-suite save writes: sort positions are assigned
/// densely from 0 in list order.
pub open spec fn case_rows_of(s: TestSuiteV) -> Seq<CaseRowV> {
    Seq::new(s.test_cases.len(), |i: int| case_row_at(s.test_cases[i], s.id, i as i64))
}

/// The run row a fresh insert writes.
pub open spec fn new_run_row(r: RunResultV) -> RunRowV {
    RunRowV {
        id: r.id,
        test_suite_id: r.test_suite_id,
        test_suite_name: r.test_suite_name,
        models: r.models,
        parameters: r.parameters,
        status: r.status,
        started_at: r.started_at,
        completed_at: r.completed_at,
        judge_model: r.judge_model,
    }
}

/// The run row an upsert leaves on conflict: only the status and the
/// completion time are refreshed; every other field is immutable after
/// creation.
pub open spec fn merge_run_row(old_row: RunRowV, r: RunResultV) -> RunRowV {
    RunRowV { status: r.status, completed_at: r.completed_at, ..old_row }
}

/// Every row of the run table after the conflict branch of the upsert.
pub open spec fn upsert_run_map(rows: Seq<RunRowV>, r: RunResultV) -> Seq<RunRowV> {
    Seq::new(
        rows.len(),
        |i: int|
            if rows[i].id == r.id {
                merge_run_row(rows[i], r)
            } else {
                rows[i]
            },
    )
}

/// The run table after the upsert of `r`.
pub open spec fn upsert_run(rows: Seq<RunRowV>, r: RunResultV) -> Seq<RunRowV> {
    if has_run(rows, r.id) {
        upsert_run_map(rows, r)
    } else {
        rows.push(new_run_row(r))
    }
}

/// The result row written for one entry of a run's result list.
pub open spec fn result_row_of(x: TestCaseResultV, rid: Seq<char>) -> ResultRowV {
    ResultRowV {
        run_id: rid,
        test_case_id: x.test_case_id,
        model_id: x.model_id,
        response: x.response,
        token_count: x.token_count,
        latency_ms: x.latency_ms,
        status: x.status,
        error: x.error,
        score: x.score,
        streamed_content: x.streamed_content,
    }
}

/// The result rows a run save writes, in list order.
pub open spec fn result_rows_of(r: RunResultV) -> Seq<ResultRowV> {
    Seq::new(r.results.len(), |i: int| result_row_of(r.results[i], r.id))
}

/// A case list repeats no id.
pub open spec fn case_ids_distinct(cs: Seq<TestCaseV>) -> bool {
    forall|i: int, j: int| 0 <= i < j < cs.len() ==> #[trigger] cs[i].id != #[trigger] cs[j].id
}

/// Some case of the list carries this id.
pub open spec fn case_list_has_id(cs: Seq<TestCaseV>, id: Seq<char>) -> bool {
    exists|i: int| 0 <= i < cs.len() && cs[i].id == id
}

/// When a full-suite save succeeds: the supplied case list repeats no id,
/// and none of its ids sits in a case row of another suite.
pub open spec fn save_suite_ok(st: StoreV, s: TestSuiteV) -> bool {
    &&& case_ids_distinct(s.test_cases)
    &&& forall|k: int|
        0 <= k < st.cases.len() && (#[trigger] st.cases[k]).test_suite_id != s.id
            ==> !case_list_has_id(s.test_cases, st.cases[k].id)
}

// ------------------------------------------------------------------
// Exec helpers for the save operations.
// ------------------------------------------------------------------

/// Does the supplied case list repeat an id?
fn case_list_repeats_id(cases: &Vec<TestCase>) -> (b: bool)
    ensures
        b == !case_ids_distinct(cases.deep_view()),
{
    let n = cases.len();
    let mut i: usize = 0;
    while i < n
        invariant
            i <= n,
            n == cases.len(),
            forall|a: int, b: int|
                0 <= a < b < n && a < i ==> (#[trigger] cases.deep_view()[a]).id != (
                #[trigger] cases.deep_view()[b]).id,
        decreases n - i,
    {
        let mut j: usize = i + 1;
        while j < n
            invariant
                i < j <= n,
                n == cases.len(),
                forall|a: int, b: int|
                    0 <= a < b < n && a < i ==> (#[trigger] cases.deep_view()[a]).id != (
                    #[trigger] cases.deep_view()[b]).id,
                forall|b: int|
                    i < b < j ==> (#[trigger] cases.deep_view()[b]).id != cases.deep_view()[
                    i as int].id,
            decreases n - j,
        {
            if cases[i].id == cases[j].id {
                proof {
                    assert((cases.deep_view()[i as int]).id == (cases.deep_view()[j as int]).id);
                    assert(!case_ids_distinct(cases.deep_view()));
                }
                return true;
            }
            j += 1;
        }
        i += 1;
    }
    false
}

/// Does some id of the case list sit in a case row of another suite?
fn case_rows_conflict(rows: &Vec<CaseRow>, suite: &TestSuite) -> (b: bool)
    ensures
        b == !(forall|k: int|
            0 <= k < rows.deep_view().len() && (#[trigger] rows.deep_view()[k]).test_suite_id
                != suite.deep_view().id ==> !case_list_has_id(
                suite.deep_view().test_cases,
                rows.deep_view()[k].id,
            )),
{
    let mut k: usize = 0;
    while k < rows.len()
        invariant
            k <= rows.len(),
            forall|a: int|
                0 <= a < k && (#[trigger] rows.deep_view()[a]).test_suite_id
                    != suite.deep_view().id ==> !case_list_has_id(
                    suite.deep_view().test_cases,
                    rows.deep_view()[a].id,
                ),
        decreases rows.len() - k,
    {
        if !(rows[k].test_suite_id == suite.id) {
            proof {
                assert(rows.deep_view()[k as int] == rows@[k as int].deep_view());
                assert(suite.deep_view().id == suite.id@);
            }
            let mut j: usize = 0;
            while j < suite.test_cases.len()
                invariant
                    j <= suite.test_cases.len(),
                    k < rows.len(),
                    (rows.deep_view()[k as int]).test_suite_id != suite.deep_view().id,
                    forall|b: int|
                        0 <= b < j ==> (#[trigger] suite.deep_view().test_cases[b]).id
                            != rows.deep_view()[k as int].id,
                decreases suite.test_cases.len() - j,
            {
                if suite.test_cases[j].id == rows[k].id {
                    proof {
                        assert(suite.deep_view().test_cases[j as int]
                            == suite.test_cases@[j as int].deep_view());
                        assert(rows.deep_view()[k as int] == rows@[k as int].deep_view());
                        assert(suite.test_cases@[j as int].id@ == rows@[k as int].id@);
                        assert((suite.deep_view().test_cases[j as int]).id == (rows.deep_view()[
                        k as int]).id);
                        assert(case_list_has_id(
                            suite.deep_view().test_cases,
                            rows.deep_view()[k as int].id,
                        ));
                    }
                    return true;
                }
                j += 1;
            }
            assert(!case_list_has_id(suite.deep_view().test_cases, rows.deep_view()[k as int].id));
        }
        k += 1;
    }
    false
}

/// Rebuild the suite table with `suite` upserted.
fn upsert_suite_rows(rows: &Vec<SuiteRow>, suite: &TestSuite) -> (r: Vec<SuiteRow>)
    ensures
        r.deep_view() == upsert_suite(rows.deep_view(), suite.deep_view()),
{
    let mut out: Vec<SuiteRow> = Vec::new();
    let mut found: bool = false;
    let mut i: usize = 0;
    while i < rows.len()
        invariant
            i <= rows.len(),
            found == has_suite(rows.deep_view().take(i as int), suite.deep_view().id),
            out.deep_view() =~= upsert_suite_map(rows.deep_view().take(i as int), suite.deep_view()),
        decreases rows.len() - i,
    {
        proof {
            lemma_take_step(rows.deep_view(), i as int);
        }
        let ghost prev = out;
        if rows[i].id == suite.id {
            let merged = SuiteRow {
                id: suite.id.clone(),
                name: suite.name.clone(),
                description: clone_opt_string(&suite.description),
                system_prompt: suite.system_prompt.clone(),
                judge_system_prompt: clone_opt_string(&suite.judge_system_prompt),
                created_at: rows[i].created_at,
                updated_at: suite.updated_at,
            };
            let ghost mg = merged;
            proof {
                assert(mg.deep_view() =~= merge_suite_row(
                    rows.deep_view()[i as int],
                    suite.deep_view(),
                ));
            }
            out.push(merged);
            proof {
                lemma_deep_view_push(prev, out, mg);
                assert(has_suite(rows.deep_view().take((i + 1) as int), suite.deep_view().id));
            }
            found = true;
        } else {
            let row = clone_suite_row(&rows[i]);
            let ghost rowg = row;
            out.push(row);
            proof {
                lemma_deep_view_push(prev, out, rowg);
                if has_suite(rows.deep_view().take(i as int), suite.deep_view().id) {
                    let w = choose|w: int| #![trigger rows.deep_view().take(i as int)[w]]
                        0 <= w < i && rows.deep_view().take(i as int)[w].id
                            == suite.deep_view().id;
                    assert(rows.deep_view().take((i + 1) as int)[w].id == suite.deep_view().id);
                } else {
                    if has_suite(rows.deep_view().take((i + 1) as int), suite.deep_view().id) {
                        let w = choose|w: int| #![trigger rows.deep_view().take((i + 1) as int)[w]]
                            0 <= w < i + 1 && rows.deep_view().take((i + 1) as int)[w].id
                                == suite.deep_view().id;
                        assert(w < i);
                        assert(rows.deep_view().take(i as int)[w].id == suite.deep_view().id);
                    }
                }
            }
        }
        i += 1;
    }
    proof {
        lemma_take_all(rows.deep_view());
    }
    if !found {
        let ghost prev = out;
        let fresh = SuiteRow {
            id: suite.id.clone(),
            name: suite.name.clone(),
            description: clone_opt_string(&suite.description),
            system_prompt: suite.system_prompt.clone(),
            judge_system_prompt: clone_opt_string(&suite.judge_system_prompt),
            created_at: suite.created_at,
            updated_at: suite.updated_at,
        };
        let ghost fg = fresh;
        proof {
            assert(fg.deep_view() =~= new_suite_row(suite.deep_view()));
        }
        out.push(fresh);
        proof {
            lemma_deep_view_push(prev, out, fg);
            assert(prev.deep_view() =~= rows.deep_view()) by {
                assert(prev.deep_view() =~= upsert_suite_map(rows.deep_view(), suite.deep_view()));
            }
            assert(out.deep_view() =~= rows.deep_view().push(new_suite_row(suite.deep_view())));
        }
    }
    out
}

/// Rebuild the run table with `run` upserted.
fn upsert_run_rows(rows: &Vec<RunRow>, run: &RunResult) -> (r: Vec<RunRow>)
    ensures
        r.deep_view() == upsert_run(rows.deep_view(), run.deep_view()),
{
    let mut out: Vec<RunRow> = Vec::new();
    let mut found: bool = false;
    let mut i: usize = 0;
    while i < rows.len()
        invariant
            i <= rows.len(),
            found == has_run(rows.deep_view().take(i as int), run.deep_view().id),
            out.deep_view() =~= upsert_run_map(rows.deep_view().take(i as int), run.deep_view()),
        decreases rows.len() - i,
    {
        proof {
            lemma_take_step(rows.deep_view(), i as int);
        }
        let ghost prev = out;
        if rows[i].id == run.id {
            let merged = RunRow {
                id: rows[i].id.clone(),
                test_suite_id: rows[i].test_suite_id.clone(),
                test_suite_name: rows[i].test_suite_name.clone(),
                models: clone_strings(&rows[i].models),
                parameters: clone_parameters(&rows[i].parameters),
                status: run.status.clone(),
                started_at: rows[i].started_at,
                completed_at: run.completed_at,
                judge_model: clone_opt_string(&rows[i].judge_model),
            };
            let ghost mg = merged;
            proof {
                assert(mg.deep_view() =~= merge_run_row(
                    rows.deep_view()[i as int],
                    run.deep_view(),
                ));
            }
            out.push(merged);
            proof {
                lemma_deep_view_push(prev, out, mg);
                assert(has_run(rows.deep_view().take((i + 1) as int), run.deep_view().id));
            }
            found = true;
        } else {
            let row = clone_run_row(&rows[i]);
            let ghost rowg = row;
            out.push(row);
            proof {
                lemma_deep_view_push(prev, out, rowg);
                if has_run(rows.deep_view().take(i as int), run.deep_view().id) {
                    let w = choose|w: int|
                        0 <= w < i && rows.deep_view().take(i as int)[w].id == run.deep_view().id;
                    assert(rows.deep_view().take((i + 1) as int)[w].id == run.deep_view().id);
                } else {
                    if has_run(rows.deep_view().take((i + 1) as int), run.deep_view().id) {
                        let w = choose|w: int| #![trigger rows.deep_view().take((i + 1) as int)[w]]
                            0 <= w < i + 1 && rows.deep_view().take((i + 1) as int)[w].id
                                == run.deep_view().id;
                        assert(w < i);
                        assert(rows.deep_view().take(i as int)[w].id == run.deep_view().id);
                    }
                }
            }
        }
        i += 1;
    }
    proof {
        lemma_take_all(rows.deep_view());
    }
    if !found {
        let ghost prev = out;
        let fresh = RunRow {
            id: run.id.clone(),
            test_suite_id: run.test_suite_id.clone(),
            test_suite_name: run.test_suite_name.clone(),
            models: clone_strings(&run.models),
            parameters: clone_parameters(&run.parameters),
            status: run.status.clone(),
            started_at: run.started_at,
            completed_at: run.completed_at,
            judge_model: clone_opt_string(&run.judge_model),
        };
        let ghost fg = fresh;
        proof {
            assert(fg.deep_view() =~= new_run_row(run.deep_view()));
        }
        out.push(fresh);
        proof {
            lemma_deep_view_push(prev, out, fg);
            assert(prev.deep_view() =~= rows.deep_view()) by {
                assert(prev.deep_view() =~= upsert_run_map(rows.deep_view(), run.deep_view()));
            }
            assert(out.deep_view() =~= rows.deep_view().push(new_run_row(run.deep_view())));
        }
    }
    out
}

/// Append the case rows of `suite`, sort positions assigned by list index.
fn append_case_rows(out: &mut Vec<CaseRow>, suite: &TestSuite)
    requires
        suite.test_cases.deep_view().len() <= i64::MAX,
    ensures
        final(out).deep_view() == old(out).deep_view() + case_rows_of(suite.deep_view()),
{
    let mut i: usize = 0;
    while i < suite.test_cases.len()
        invariant
            i <= suite.test_cases.len(),
            suite.test_cases.deep_view().len() <= i64::MAX,
            out.deep_view() =~= old(out).deep_view() + case_rows_of(suite.deep_view()).take(
                i as int,
            ),
        decreases suite.test_cases.len() - i,
    {
        let c = &suite.test_cases[i];
        let row = CaseRow {
            id: c.id.clone(),
            test_suite_id: suite.id.clone(),
            prompt: c.prompt.clone(),
            expected_output: clone_opt_string(&c.expected_output),
            scoring_method: c.scoring_method.clone(),
            weight: c.weight.clone(),
            category: clone_opt_string(&c.metadata.category),
            difficulty: clone_opt_string(&c.metadata.difficulty),
            tags: clone_strings(&c.metadata.tags),
            sort_order: i as i64,
        };
        let ghost rowg = row;
        let ghost prev = *out;
        proof {
            assert(rowg.deep_view() =~= case_row_at(
                suite.deep_view().test_cases[i as int],
                suite.deep_view().id,
                i as i64,
            ));
        }
        out.push(row);
        proof {
            lemma_deep_view_push(prev, *out, rowg);
            lemma_take_step(case_rows_of(suite.deep_view()), i as int);
        }
        i += 1;
    }
    proof {
        lemma_take_all(case_rows_of(suite.deep_view()));
    }
}

/// Append the result rows of `run`, in list order.
fn append_result_rows(out: &mut Vec<ResultRow>, run: &RunResult)
    ensures
        final(out).deep_view() == old(out).deep_view() + result_rows_of(run.deep_view()),
{
    let mut i: usize = 0;
    while i < run.results.len()
        invariant
            i <= run.results.len(),
            out.deep_view() =~= old(out).deep_view() + result_rows_of(run.deep_view()).take(
                i as int,
            ),
        decreases run.results.len() - i,
    {
        let x = &run.results[i];
        let row = ResultRow {
            run_id: run.id.clone(),
            test_case_id: x.test_case_id.clone(),
            model_id: x.model_id.clone(),
            response: x.response.clone(),
            token_count: x.token_count,
            latency_ms: x.latency_ms,
            status: x.status.clone(),
            error: clone_opt_string(&x.error),
            score: clone_opt_score(&x.score),
            streamed_content: clone_opt_string(&x.streamed_content),
        };
        let ghost rowg = row;
        let ghost prev = *out;
        proof {
            assert(rowg.deep_view() =~= result_row_of(
                run.deep_view().results[i as int],
                run.deep_view().id,
            ));
        }
        out.push(row);
        proof {
            lemma_deep_view_push(prev, *out, rowg);
            lemma_take_step(result_rows_of(run.deep_view()), i as int);
        }
        i += 1;
    }
    proof {
        lemma_take_all(result_rows_of(run.deep_view()));
    }
}

// ------------------------------------------------------------------
// Executable checks of the storage invariant, for images loaded from a
// database file the library did not write itself.
// ------------------------------------------------------------------

/// Does the suite table repeat an id?
fn suite_rows_repeat_id(rows: &Vec<SuiteRow>) -> (b: bool)
    ensures
        b == !suites_distinct(rows.deep_view()),
{
    let n = rows.len();
    let mut i: usize = 0;
    while i < n
        invariant
            i <= n,
            n == rows.len(),
            forall|a: int, b: int|
                0 <= a < b < n && a < i ==> (#[trigger] rows.deep_view()[a]).id != (
                #[trigger] rows.deep_view()[b]).id,
        decreases n - i,
    {
        let mut j: usize = i + 1;
        while j < n
            invariant
                i < j <= n,
                n == rows.len(),
                forall|a: int, b: int|
                    0 <= a < b < n && a < i ==> (#[trigger] rows.deep_view()[a]).id != (
                    #[trigger] rows.deep_view()[b]).id,
                forall|b: int|
                    i < b < j ==> (#[trigger] rows.deep_view()[b]).id != rows.deep_view()[
                    i as int].id,
            decreases n - j,
        {
            if rows[i].id == rows[j].id {
                proof {
                    assert((rows.deep_view()[i as int]).id == (rows.deep_view()[j as int]).id);
                    assert(!suites_distinct(rows.deep_view()));
                }
                return true;
            }
            j += 1;
        }
        i += 1;
    }
    false
}

/// Does the run table repeat an id?
fn run_rows_repeat_id(rows: &Vec<RunRow>) -> (b: bool)
    ensures
        b == !runs_distinct(rows.deep_view()),
{
    let n = rows.len();
    let mut i: usize = 0;
    while i < n
        invariant
            i <= n,
            n == rows.len(),
            forall|a: int, b: int|
                0 <= a < b < n && a < i ==> (#[trigger] rows.deep_view()[a]).id != (
                #[trigger] rows.deep_view()[b]).id,
        decreases n - i,
    {
        let mut j: usize = i + 1;
        while j < n
            invariant
                i < j <= n,
                n == rows.len(),
                forall|a: int, b: int|
                    0 <= a < b < n && a < i ==> (#[trigger] rows.deep_view()[a]).id != (
                    #[trigger] rows.deep_view()[b]).id,
                forall|b: int|
                    i < b < j ==> (#[trigger] rows.deep_view()[b]).id != rows.deep_view()[
                    i as int].id,
            decreases n - j,
        {
            if rows[i].id == rows[j].id {
                proof {
                    assert((rows.deep_view()[i as int]).id == (rows.deep_view()[j as int]).id);
                    assert(!runs_distinct(rows.deep_view()));
                }
                return true;
            }
            j += 1;
        }
        i += 1;
    }
    false
}

/// Do the case rows of every suite carry increasing sort positions along
/// the table?
fn case_rows_ordered(rows: &Vec<CaseRow>) -> (b: bool)
    ensures
        b == cases_ordered(rows.deep_view()),
{
    let n = rows.len();
    let mut i: usize = 0;
    while i < n
        invariant
            i <= n,
            n == rows.len(),
            forall|a: int, b: int|
                0 <= a < b < n && a < i && (#[trigger] rows.deep_view()[a]).test_suite_id == (
                #[trigger] rows.deep_view()[b]).test_suite_id ==> rows.deep_view()[a].sort_order
                    < rows.deep_view()[b].sort_order,
        decreases n - i,
    {
        let mut j: usize = i + 1;
        while j < n
            invariant
                i < j <= n,
                n == rows.len(),
                forall|a: int, b: int|
                    0 <= a < b < n && a < i && (#[trigger] rows.deep_view()[a]).test_suite_id == (
                    #[trigger] rows.deep_view()[b]).test_suite_id ==> rows.deep_view()[
                    a].sort_order < rows.deep_view()[b].sort_order,
                forall|b: int|
                    i < b < j && (#[trigger] rows.deep_view()[b]).test_suite_id == rows.deep_view()[
                    i as int].test_suite_id ==> rows.deep_view()[i as int].sort_order
                        < rows.deep_view()[b].sort_order,
            decreases n - j,
        {
            if rows[i].test_suite_id == rows[j].test_suite_id && rows[i].sort_order
                >= rows[j].sort_order {
                proof {
                    assert((rows.deep_view()[i as int]).test_suite_id == (rows.deep_view()[
                    j as int]).test_suite_id);
                    assert(!cases_ordered(rows.deep_view()));
                }
                return false;
            }
            j += 1;
        }
        i += 1;
    }
    true
}

/// Does some suite row carry this id?
fn suite_rows_have_id(rows: &Vec<SuiteRow>, id: &String) -> (b: bool)
    ensures
        b == has_suite(rows.deep_view(), id.deep_view()),
{
    let mut i: usize = 0;
    while i < rows.len()
        invariant
            i <= rows.len(),
            forall|a: int| 0 <= a < i ==> (#[trigger] rows.deep_view()[a]).id != id.deep_view(),
        decreases rows.len() - i,
    {
        if rows[i].id == *id {
            proof {
                assert((rows.deep_view()[i as int]).id == id.deep_view());
            }
            return true;
        }
        i += 1;
    }
    false
}

/// Does some run row carry this id?
fn run_rows_have_id(rows: &Vec<RunRow>, id: &String) -> (b: bool)
    ensures
        b == has_run(rows.deep_view(), id.deep_view()),
{
    let mut i: usize = 0;
    while i < rows.len()
        invariant
            i <= rows.len(),
            forall|a: int| 0 <= a < i ==> (#[trigger] rows.deep_view()[a]).id != id.deep_view(),
        decreases rows.len() - i,
    {
        if rows[i].id == *id {
            proof {
                assert((rows.deep_view()[i as int]).id == id.deep_view());
            }
            return true;
        }
        i += 1;
    }
    false
}

// ------------------------------------------------------------------
// The store.
// ------------------------------------------------------------------

/// The in-memory image of the database: every table of the normalized
/// schema, the two singleton records, and the legacy aggregate table.
#[derive(Debug)]
pub struct Store {
    /// The singleton schema-version record, if its row exists.
    pub version: Option<i64>,
    /// The suite table.
    pub suites: Vec<SuiteRow>,
    /// The case table.
    pub cases: Vec<CaseRow>,
    /// The run table.
    pub runs: Vec<RunRow>,
    /// The result table.
    pub results: Vec<ResultRow>,
    /// The singleton app-state row, if it exists.
    pub app_state: Option<AppState>,
    /// The legacy aggregate table: absent, present but empty, or holding
    /// the one payload row.
    pub legacy: Option<Option<LegacySnapshot>>,
}

impl DeepView for Store {
    type V = StoreV;

    open spec fn deep_view(&self) -> StoreV {
        StoreV {
            version: self.version,
            suites: self.suites.deep_view(),
            cases: self.cases.deep_view(),
            runs: self.runs.deep_view(),
            results: self.results.deep_view(),
            app_state: self.app_state.deep_view(),
            legacy: match self.legacy {
                None => None,
                Some(None) => Some(None),
                Some(Some(s)) => Some(Some(s.deep_view())),
            },
        }
    }
}

impl Store {
    /// An image of a freshly created database file.
    pub fn new() -> (r: Store)
        ensures
            r.deep_view() == StoreV::empty(),
            r.deep_view().wf(),
    {
        let r = Store {
            version: None,
            suites: Vec::new(),
            cases: Vec::new(),
            runs: Vec::new(),
            results: Vec::new(),
            app_state: None,
            legacy: None,
        };
        proof {
            assert(r.deep_view() =~= StoreV::empty());
        }
        r
    }

    /// Read the singleton app-state row; a missing row self-heals to the
    /// empty pointer.
    pub fn get_app_state(&self) -> (r: AppState)
        ensures
            r.deep_view() == match self.deep_view().app_state {
                Some(s) => s,
                None => AppStateV { active_test_suite_id: None, current_run_id: None },
            },
    {
        match &self.app_state {
            Some(s) => clone_app_state(s),
            None => AppState::empty(),
        }
    }

    /// Overwrite the singleton app-state row wholesale.
    pub fn save_app_state(&mut self, state: &AppState)
        requires
            old(self).deep_view().wf(),
        ensures
            final(self).deep_view().wf(),
            final(self).deep_view() == (StoreV {
                app_state: Some(state.deep_view()),
                ..old(self).deep_view()
            }),
    {
        self.app_state = Some(clone_app_state(state));
        proof {
            assert(final(self).deep_view() =~= (StoreV {
                app_state: Some(state.deep_view()),
                ..old(self).deep_view()
            }));
        }
    }

    /// The cases of one suite, in stored sort-position order.
    pub fn get_test_cases_for_suite(&self, suite_id: &String) -> (r: Vec<TestCase>)
        ensures
            r.deep_view() == cases_for(self.deep_view().cases, suite_id.deep_view()),
    {
        let mut out: Vec<TestCase> = Vec::new();
        let mut i: usize = 0;
        while i < self.cases.len()
            invariant
                i <= self.cases.len(),
                out.deep_view() =~= cases_for(
                    self.cases.deep_view().take(i as int),
                    suite_id.deep_view(),
                ),
            decreases self.cases.len() - i,
        {
            proof {
                lemma_take_step(self.cases.deep_view(), i as int);
            }
            if self.cases[i].test_suite_id == *suite_id {
                let c = build_case(&self.cases[i]);
                let ghost prev = out;
                let ghost cg = c;
                out.push(c);
                proof {
                    lemma_deep_view_push(prev, out, cg);
                }
            }
            i += 1;
        }
        proof {
            lemma_take_all(self.cases.deep_view());
        }
        out
    }

    /// The results of one run, in table order.
    pub fn get_results_for_run(&self, run_id: &String) -> (r: Vec<TestCaseResult>)
        ensures
            r.deep_view() == results_for(self.deep_view().results, run_id.deep_view()),
    {
        let mut out: Vec<TestCaseResult> = Vec::new();
        let mut i: usize = 0;
        while i < self.results.len()
            invariant
                i <= self.results.len(),
                out.deep_view() =~= results_for(
                    self.results.deep_view().take(i as int),
                    run_id.deep_view(),
                ),
            decreases self.results.len() - i,
        {
            proof {
                lemma_take_step(self.results.deep_view(), i as int);
            }
            if self.results[i].run_id == *run_id {
                let c = build_result(&self.results[i]);
                let ghost prev = out;
                let ghost cg = c;
                out.push(c);
                proof {
                    lemma_deep_view_push(prev, out, cg);
                }
            }
            i += 1;
        }
        proof {
            lemma_take_all(self.results.deep_view());
        }
        out
    }

    /// List every suite, most recently updated first, each with its cases
    /// attached in stored sort-position order.
    pub fn get_all_test_suites(&self) -> (r: Vec<TestSuite>)
        ensures
            r.deep_view() == suites_view(self.deep_view()),
    {
        let sorted = sorted_suites(&self.suites);
        let mut out: Vec<TestSuite> = Vec::new();
        let mut i: usize = 0;
        while i < sorted.len()
            invariant
                i <= sorted.len(),
                sorted.deep_view() == sort_suites(self.deep_view().suites),
                out.deep_view().len() == i,
                forall|k: int|
                    0 <= k < i ==> out.deep_view()[k] == #[trigger] suites_view(self.deep_view())[
                    k],
            decreases sorted.len() - i,
        {
            let row = &sorted[i];
            let cs = self.get_test_cases_for_suite(&row.id);
            let ent = TestSuite {
                id: row.id.clone(),
                name: row.name.clone(),
                description: clone_opt_string(&row.description),
                system_prompt: row.system_prompt.clone(),
                judge_system_prompt: clone_opt_string(&row.judge_system_prompt),
                test_cases: cs,
                created_at: row.created_at,
                updated_at: row.updated_at,
            };
            let ghost prev = out;
            let ghost eg = ent;
            proof {
                assert(eg.deep_view() =~= suite_entity(
                    sorted.deep_view()[i as int],
                    self.deep_view().cases,
                ));
            }
            out.push(ent);
            proof {
                lemma_deep_view_push(prev, out, eg);
            }
            i += 1;
        }
        proof {
            assert(out.deep_view() =~= suites_view(self.deep_view()));
        }
        out
    }

    /// List every run, latest started first, each with its decoded
    /// parameters and its full result list attached.
    pub fn get_all_runs(&self) -> (r: Vec<RunResult>)
        ensures
            r.deep_view() == runs_view(self.deep_view()),
    {
        let sorted = sorted_runs(&self.runs);
        let mut out: Vec<RunResult> = Vec::new();
        let mut i: usize = 0;
        while i < sorted.len()
            invariant
                i <= sorted.len(),
                sorted.deep_view() == sort_runs(self.deep_view().runs),
                out.deep_view().len() == i,
                forall|k: int|
                    0 <= k < i ==> out.deep_view()[k] == #[trigger] runs_view(self.deep_view())[k],
            decreases sorted.len() - i,
        {
            let row = &sorted[i];
            let rs = self.get_results_for_run(&row.id);
            let ent = RunResult {
                id: row.id.clone(),
                test_suite_id: row.test_suite_id.clone(),
                test_suite_name: row.test_suite_name.clone(),
                models: clone_strings(&row.models),
                parameters: clone_parameters(&row.parameters),
                results: rs,
                status: row.status.clone(),
                started_at: row.started_at,
                completed_at: row.completed_at,
                judge_model: clone_opt_string(&row.judge_model),
            };
            let ghost prev = out;
            let ghost eg = ent;
            proof {
                assert(eg.deep_view() =~= run_entity(
                    sorted.deep_view()[i as int],
                    self.deep_view().results,
                ));
            }
            out.push(ent);
            proof {
                lemma_deep_view_push(prev, out, eg);
            }
            i += 1;
        }
        proof {
            assert(out.deep_view() =~= runs_view(self.deep_view()));
        }
        out
    }

    /// The legacy whole-database read: one aggregate document composed from
    /// the full suite and run listings and the app-state pointer, stamped
    /// with the current schema version and the current time.
    pub fn read_snapshot(&self) -> (r: BenchmakerDb)
        ensures
            r.deep_view().version == CURRENT_SCHEMA_VERSION,
            r.deep_view().test_suites == suites_view(self.deep_view()),
            r.deep_view().runs == runs_view(self.deep_view()),
            r.deep_view().active_test_suite_id == match self.deep_view().app_state {
                Some(st) => st.active_test_suite_id,
                None => None::<Seq<char>>,
            },
            r.deep_view().current_run_id == match self.deep_view().app_state {
                Some(st) => st.current_run_id,
                None => None::<Seq<char>>,
            },
    {
        let state = self.get_app_state();
        BenchmakerDb {
            version: CURRENT_SCHEMA_VERSION,
            updated_at: crate::clock::chrono_now(),
            test_suites: self.get_all_test_suites(),
            runs: self.get_all_runs(),
            active_test_suite_id: state.active_test_suite_id,
            current_run_id: state.current_run_id,
        }
    }

    /// The legacy whole-database write: every suite and run of the document
    /// is upserted with replace-children semantics, every stored suite or
    /// run the document no longer names is deleted outright (an empty list
    /// deletes every row of that kind), and the app-state pointer is
    /// overwritten from the document.  The whole write happens atomically:
    /// on an id collision nothing changes and an error is returned.
    pub fn write_snapshot(&mut self, snapshot: &BenchmakerDb) -> (r: Result<(), StoreError>)
        requires
            old(self).deep_view().wf(),
            forall|i: int|
                0 <= i < snapshot.deep_view().test_suites.len() ==> (
                #[trigger] snapshot.deep_view().test_suites[i]).test_cases.len() <= i64::MAX,
        ensures
            final(self).deep_view().wf(),
            r is Ok <==> write_snapshot_ok(snapshot.deep_view()),
            r is Ok ==> final(self).deep_view() == (StoreV {
                suites: upsert_suites_all(
                    keep_doc_suites(
                        old(self).deep_view().suites,
                        snapshot.deep_view().test_suites,
                    ),
                    snapshot.deep_view().test_suites,
                ),
                cases: doc_case_rows(snapshot.deep_view().test_suites),
                runs: upsert_runs_all(
                    keep_doc_runs(old(self).deep_view().runs, snapshot.deep_view().runs),
                    snapshot.deep_view().runs,
                ),
                results: doc_result_rows(snapshot.deep_view().runs),
                app_state: Some(
                    AppStateV {
                        active_test_suite_id: snapshot.deep_view().active_test_suite_id,
                        current_run_id: snapshot.deep_view().current_run_id,
                    },
                ),
                ..old(self).deep_view()
            }),
            r is Err ==> *final(self) == *old(self) && r == Err::<(), StoreError>(
                StoreError::DuplicateId,
            ),
    {
        let ghost doc = snapshot.deep_view();
        if suite_list_repeats_id(&snapshot.test_suites) {
            return Err(StoreError::DuplicateId);
        }
        if run_list_repeats_id(&snapshot.runs) {
            return Err(StoreError::DuplicateId);
        }
        let mut fresh_cases: Vec<CaseRow> = Vec::new();
        let mut k: usize = 0;
        while k < snapshot.test_suites.len()
            invariant
                k <= snapshot.test_suites.len(),
                forall|i: int|
                    0 <= i < snapshot.deep_view().test_suites.len() ==> (
                    #[trigger] snapshot.deep_view().test_suites[i]).test_cases.len() <= i64::MAX,
                fresh_cases.deep_view() =~= doc_case_rows(
                    snapshot.deep_view().test_suites.take(k as int),
                ),
            decreases snapshot.test_suites.len() - k,
        {
            proof {
                lemma_take_step(snapshot.deep_view().test_suites, k as int);
                assert(snapshot.deep_view().test_suites[k as int]
                    == snapshot.test_suites@[k as int].deep_view());
            }
            append_case_rows(&mut fresh_cases, &snapshot.test_suites[k]);
            k += 1;
        }
        proof {
            lemma_take_all(snapshot.deep_view().test_suites);
        }
        if case_rows_repeat_id(&fresh_cases) {
            return Err(StoreError::DuplicateId);
        }
        let mut fresh_results: Vec<ResultRow> = Vec::new();
        let mut k2: usize = 0;
        while k2 < snapshot.runs.len()
            invariant
                k2 <= snapshot.runs.len(),
                fresh_results.deep_view() =~= doc_result_rows(
                    snapshot.deep_view().runs.take(k2 as int),
                ),
            decreases snapshot.runs.len() - k2,
        {
            proof {
                lemma_take_step(snapshot.deep_view().runs, k2 as int);
                assert(snapshot.deep_view().runs[k2 as int]
                    == snapshot.runs@[k2 as int].deep_view());
            }
            append_result_rows(&mut fresh_results, &snapshot.runs[k2]);
            k2 += 1;
        }
        proof {
            lemma_take_all(snapshot.deep_view().runs);
        }
        let mut new_suites = retain_doc_suites(&self.suites, &snapshot.test_suites);
        let mut k3: usize = 0;
        while k3 < snapshot.test_suites.len()
            invariant
                k3 <= snapshot.test_suites.len(),
                *self == *old(self),
                new_suites.deep_view() == upsert_suites_all(
                    keep_doc_suites(
                        old(self).deep_view().suites,
                        snapshot.deep_view().test_suites,
                    ),
                    snapshot.deep_view().test_suites.take(k3 as int),
                ),
            decreases snapshot.test_suites.len() - k3,
        {
            proof {
                lemma_take_step(snapshot.deep_view().test_suites, k3 as int);
                assert(snapshot.deep_view().test_suites[k3 as int]
                    == snapshot.test_suites@[k3 as int].deep_view());
            }
            new_suites = upsert_suite_rows(&new_suites, &snapshot.test_suites[k3]);
            k3 += 1;
        }
        proof {
            lemma_take_all(snapshot.deep_view().test_suites);
        }
        let mut new_runs = retain_doc_runs(&self.runs, &snapshot.runs);
        let mut k4: usize = 0;
        while k4 < snapshot.runs.len()
            invariant
                k4 <= snapshot.runs.len(),
                *self == *old(self),
                new_runs.deep_view() == upsert_runs_all(
                    keep_doc_runs(old(self).deep_view().runs, snapshot.deep_view().runs),
                    snapshot.deep_view().runs.take(k4 as int),
                ),
            decreases snapshot.runs.len() - k4,
        {
            proof {
                lemma_take_step(snapshot.deep_view().runs, k4 as int);
                assert(snapshot.deep_view().runs[k4 as int]
                    == snapshot.runs@[k4 as int].deep_view());
            }
            new_runs = upsert_run_rows(&new_runs, &snapshot.runs[k4]);
            k4 += 1;
        }
        proof {
            lemma_take_all(snapshot.deep_view().runs);
        }
        self.suites = new_suites;
        self.cases = fresh_cases;
        self.runs = new_runs;
        self.results = fresh_results;
        self.app_state = Some(
            AppState {
                active_test_suite_id: clone_opt_string(&snapshot.active_test_suite_id),
                current_run_id: clone_opt_string(&snapshot.current_run_id),
            },
        );
        proof {
            let pre = old(self).deep_view();
            let post = self.deep_view();
            assert(post =~= (StoreV {
                suites: upsert_suites_all(keep_doc_suites(pre.suites, doc.test_suites), doc.test_suites),
                cases: doc_case_rows(doc.test_suites),
                runs: upsert_runs_all(keep_doc_runs(pre.runs, doc.runs), doc.runs),
                results: doc_result_rows(doc.runs),
                app_state: Some(
                    AppStateV {
                        active_test_suite_id: doc.active_test_suite_id,
                        current_run_id: doc.current_run_id,
                    },
                ),
                ..pre
            }));
            lemma_write_snapshot_wf(pre, doc);
        }
        Ok(())
    }

    /// Check the storage invariant of a loaded image: unique primary keys,
    /// child rows referencing existing parents, and per-suite ordering of
    /// the case table.  A database file this library wrote satisfies it by
    /// construction; a foreign or corrupted file may not, and must be
    /// refused before any operation runs on it.
    pub fn check_wf(&self) -> (r: bool)
        ensures
            r == self.deep_view().wf(),
    {
        if suite_rows_repeat_id(&self.suites) {
            return false;
        }
        if case_rows_repeat_id(&self.cases) {
            return false;
        }
        if run_rows_repeat_id(&self.runs) {
            return false;
        }
        if !case_rows_ordered(&self.cases) {
            return false;
        }
        let mut i: usize = 0;
        while i < self.cases.len()
            invariant
                i <= self.cases.len(),
                forall|a: int|
                    0 <= a < i ==> has_suite(
                        self.suites.deep_view(),
                        (#[trigger] self.cases.deep_view()[a]).test_suite_id,
                    ),
            decreases self.cases.len() - i,
        {
            if !suite_rows_have_id(&self.suites, &self.cases[i].test_suite_id) {
                proof {
                    assert(!has_suite(
                        self.suites.deep_view(),
                        (self.cases.deep_view()[i as int]).test_suite_id,
                    ));
                }
                return false;
            }
            i += 1;
        }
        let mut k: usize = 0;
        while k < self.results.len()
            invariant
                k <= self.results.len(),
                forall|a: int|
                    0 <= a < k ==> has_run(
                        self.runs.deep_view(),
                        (#[trigger] self.results.deep_view()[a]).run_id,
                    ),
            decreases self.results.len() - k,
        {
            if !run_rows_have_id(&self.runs, &self.results[k].run_id) {
                proof {
                    assert(!has_run(
                        self.runs.deep_view(),
                        (self.results.deep_view()[k as int]).run_id,
                    ));
                }
                return false;
            }
            k += 1;
        }
        true
    }

    /// Detect the installed schema generation and upgrade in place: ensure
    /// the normalized tables and the app-state row exist, re-insert a
    /// decoded legacy payload with insert-or-replace semantics, drop the
    /// legacy table only after that re-insert, and stamp the new version.
    /// A legacy payload that did not decode aborts the whole migration with
    /// its error, leaving the store untouched; at or above the current
    /// generation the migration is a no-op.
    pub fn migrate_database(&mut self) -> (r: Result<(), StoreError>)
        requires
            old(self).deep_view().wf(),
            legacy_doc_fits(old(self).deep_view()),
        ensures
            final(self).deep_view().wf(),
            r is Ok <==> migrate_ok(old(self).deep_view()),
            r is Ok ==> final(self).deep_view() == migrate_result(old(self).deep_view()),
            r is Err ==> *final(self) == *old(self),
            r is Err ==> (r matches Err(StoreError::SnapshotDecode(m)) && m@ == migrate_error(
                old(self).deep_view(),
            )),
    {
        let cur: i64 = match self.version {
            Some(v) => v,
            None => 0,
        };
        if cur >= CURRENT_SCHEMA_VERSION {
            return Ok(());
        }
        // a legacy payload that did not decode is fatal, checked before
        // anything moves, so failure leaves the store untouched
        match &self.legacy {
            Some(Some(LegacySnapshot::Invalid(e))) => {
                return Err(StoreError::SnapshotDecode(e.clone()));
            },
            _ => {},
        }
        // the normalized tables exist; the app-state row is created if absent
        if self.app_state.is_none() {
            self.app_state = Some(AppState::empty());
        }
        let legacy0 = self.legacy.take();
        match legacy0 {
            None => {},
            Some(None) => {
                // a legacy table without its payload row is left in place
                self.legacy = Some(None);
            },
            Some(Some(LegacySnapshot::Decoded(db))) => {
                // the legacy table is dropped by leaving `legacy` at None
                self.apply_legacy(&db);
            },
            Some(Some(LegacySnapshot::Invalid(_e))) => {
                proof {
                    assert(false);
                }
            },
        }
        self.version = Some(CURRENT_SCHEMA_VERSION);
        proof {
            lemma_migrate_wf(old(self).deep_view());
            assert(self.deep_view() =~= migrate_result(old(self).deep_view()));
        }
        Ok(())
    }

    /// Re-insert every suite, case, run and result of the decoded legacy
    /// payload with insert-or-replace by primary key, preserving original
    /// timestamps and ordering, and overwrite the app-state pointer from
    /// the payload.
    fn apply_legacy(&mut self, db: &BenchmakerDb)
        requires
            forall|i: int|
                0 <= i < db.deep_view().test_suites.len() ==> (
                #[trigger] db.deep_view().test_suites[i]).test_cases.len() <= i64::MAX,
        ensures
            final(self).suites.deep_view() == legacy_suites(
                old(self).suites.deep_view(),
                db.deep_view().test_suites,
            ),
            final(self).cases.deep_view() == legacy_cases(
                old(self).cases.deep_view(),
                db.deep_view().test_suites,
            ),
            final(self).runs.deep_view() == legacy_runs(
                old(self).runs.deep_view(),
                db.deep_view().runs,
            ),
            final(self).results.deep_view() == legacy_results(
                old(self).results.deep_view(),
                db.deep_view().runs,
            ),
            final(self).app_state.deep_view() == Some(
                AppStateV {
                    active_test_suite_id: db.deep_view().active_test_suite_id,
                    current_run_id: db.deep_view().current_run_id,
                },
            ),
            final(self).version == old(self).version,
            final(self).legacy == old(self).legacy,
    {
        let mut k: usize = 0;
        while k < db.test_suites.len()
            invariant
                k <= db.test_suites.len(),
                forall|i: int|
                    0 <= i < db.deep_view().test_suites.len() ==> (
                    #[trigger] db.deep_view().test_suites[i]).test_cases.len() <= i64::MAX,
                self.suites.deep_view() == legacy_suites(
                    old(self).suites.deep_view(),
                    db.deep_view().test_suites.take(k as int),
                ),
                self.cases.deep_view() == legacy_cases(
                    old(self).cases.deep_view(),
                    db.deep_view().test_suites.take(k as int),
                ),
                self.runs == old(self).runs,
                self.results == old(self).results,
                self.version == old(self).version,
                self.app_state == old(self).app_state,
                self.legacy == old(self).legacy,
            decreases db.test_suites.len() - k,
        {
            proof {
                lemma_take_step(db.deep_view().test_suites, k as int);
                assert(db.deep_view().test_suites[k as int]
                    == db.test_suites@[k as int].deep_view());
            }
            let suite = &db.test_suites[k];
            let ghost sv = suite.deep_view();
            let mut s2 = retain_suites_without(&self.suites, &suite.id);
            let fresh = SuiteRow {
                id: suite.id.clone(),
                name: suite.name.clone(),
                description: clone_opt_string(&suite.description),
                system_prompt: suite.system_prompt.clone(),
                judge_system_prompt: clone_opt_string(&suite.judge_system_prompt),
                created_at: suite.created_at,
                updated_at: suite.updated_at,
            };
            let ghost prev_s = s2;
            let ghost fg = fresh;
            proof {
                assert(fg.deep_view() =~= new_suite_row(sv));
            }
            s2.push(fresh);
            proof {
                lemma_deep_view_push(prev_s, s2, fg);
            }
            self.suites = s2;
            let c2 = retain_cases_not_of(&self.cases, &suite.id);
            self.cases = c2;
            let ghost base = self.cases.deep_view();
            let ghost suites_now = self.suites;
            let mut m: usize = 0;
            while m < suite.test_cases.len()
                invariant
                    m <= suite.test_cases.len(),
                    sv == suite.deep_view(),
                    sv.test_cases.len() <= i64::MAX,
                    sv.test_cases == suite.test_cases.deep_view(),
                    self.cases.deep_view() == legacy_put_cases(
                        base,
                        sv.test_cases.take(m as int),
                        sv.id,
                    ),
                    self.suites == suites_now,
                    self.runs == old(self).runs,
                    self.results == old(self).results,
                    self.version == old(self).version,
                    self.app_state == old(self).app_state,
                    self.legacy == old(self).legacy,
                decreases suite.test_cases.len() - m,
            {
                proof {
                    lemma_take_step(sv.test_cases, m as int);
                    assert(sv.test_cases[m as int] == suite.test_cases@[m as int].deep_view());
                }
                let c = &suite.test_cases[m];
                let mut cc = retain_cases_without(&self.cases, &c.id);
                let row = CaseRow {
                    id: c.id.clone(),
                    test_suite_id: suite.id.clone(),
                    prompt: c.prompt.clone(),
                    expected_output: clone_opt_string(&c.expected_output),
                    scoring_method: c.scoring_method.clone(),
                    weight: c.weight.clone(),
                    category: clone_opt_string(&c.metadata.category),
                    difficulty: clone_opt_string(&c.metadata.difficulty),
                    tags: clone_strings(&c.metadata.tags),
                    sort_order: m as i64,
                };
                let ghost prev_c = cc;
                let ghost rowg = row;
                proof {
                    assert(rowg.deep_view() =~= case_row_at(
                        sv.test_cases[m as int],
                        sv.id,
                        m as i64,
                    ));
                    assert(sv.test_cases.take((m + 1) as int).len() - 1 == m as int);
                }
                cc.push(row);
                proof {
                    lemma_deep_view_push(prev_c, cc, rowg);
                }
                self.cases = cc;
                m += 1;
            }
            proof {
                lemma_take_all(sv.test_cases);
            }
            k += 1;
        }
        proof {
            lemma_take_all(db.deep_view().test_suites);
        }
        let ghost suites_done = self.suites;
        let ghost cases_done = self.cases;
        let mut k2: usize = 0;
        while k2 < db.runs.len()
            invariant
                k2 <= db.runs.len(),
                self.runs.deep_view() == legacy_runs(
                    old(self).runs.deep_view(),
                    db.deep_view().runs.take(k2 as int),
                ),
                self.results.deep_view() == legacy_results(
                    old(self).results.deep_view(),
                    db.deep_view().runs.take(k2 as int),
                ),
                self.suites == suites_done,
                self.cases == cases_done,
                self.version == old(self).version,
                self.app_state == old(self).app_state,
                self.legacy == old(self).legacy,
            decreases db.runs.len() - k2,
        {
            proof {
                lemma_take_step(db.deep_view().runs, k2 as int);
                assert(db.deep_view().runs[k2 as int] == db.runs@[k2 as int].deep_view());
            }
            let run = &db.runs[k2];
            let mut r2 = retain_runs_without(&self.runs, &run.id);
            let fresh = RunRow {
                id: run.id.clone(),
                test_suite_id: run.test_suite_id.clone(),
                test_suite_name: run.test_suite_name.clone(),
                models: clone_strings(&run.models),
                parameters: clone_parameters(&run.parameters),
                status: run.status.clone(),
                started_at: run.started_at,
                completed_at: run.completed_at,
                judge_model: clone_opt_string(&run.judge_model),
            };
            let ghost prev_r = r2;
            let ghost fg = fresh;
            proof {
                assert(fg.deep_view() =~= new_run_row(run.deep_view()));
            }
            r2.push(fresh);
            proof {
                lemma_deep_view_push(prev_r, r2, fg);
            }
            self.runs = r2;
            let mut res2 = retain_results_not_of(&self.results, &run.id);
            append_result_rows(&mut res2, run);
            self.results = res2;
            k2 += 1;
        }
        proof {
            lemma_take_all(db.deep_view().runs);
        }
        self.app_state = Some(
            AppState {
                active_test_suite_id: clone_opt_string(&db.active_test_suite_id),
                current_run_id: clone_opt_string(&db.current_run_id),
            },
        );
    }

    /// Delete a suite by id; its case rows cascade away with it.  Runs that
    /// reference the suite stay untouched.
    pub fn delete_test_suite(&mut self, id: &String)
        requires
            old(self).deep_view().wf(),
        ensures
            final(self).deep_view().wf(),
            final(self).deep_view() == (StoreV {
                suites: remove_suite(old(self).deep_view().suites, id.deep_view()),
                cases: remove_cases_of(old(self).deep_view().cases, id.deep_view()),
                ..old(self).deep_view()
            }),
    {
        let kept_suites = retain_suites_without(&self.suites, id);
        let kept_cases = retain_cases_not_of(&self.cases, id);
        self.suites = kept_suites;
        self.cases = kept_cases;
        proof {
            let pre = old(self).deep_view();
            let post = self.deep_view();
            assert(post =~= (StoreV {
                suites: remove_suite(pre.suites, id.deep_view()),
                cases: remove_cases_of(pre.cases, id.deep_view()),
                ..pre
            }));
            lemma_remove_suite_distinct(pre.suites, id.deep_view());
            lemma_remove_suite_pred(pre.suites, id.deep_view());
            lemma_remove_suite_retain(pre.suites, id.deep_view());
            lemma_remove_cases_of_distinct(pre.cases, id.deep_view());
            lemma_remove_cases_of_ordered(pre.cases, id.deep_view());
            lemma_remove_cases_of_pred(pre.cases, id.deep_view());
            lemma_remove_cases_of_member(pre.cases, id.deep_view());
            assert forall|k: int| 0 <= k < post.cases.len() implies has_suite(
                post.suites,
                (#[trigger] post.cases[k]).test_suite_id,
            ) by {
                let i = choose|i: int| 0 <= i < pre.cases.len() && pre.cases[i] == post.cases[k];
                assert(has_suite(pre.suites, pre.cases[i].test_suite_id));
                let s = choose|s: int|
                    0 <= s < pre.suites.len() && pre.suites[s].id == pre.cases[i].test_suite_id;
                assert(pre.suites[s].id != id.deep_view());
            }
        }
    }

    /// Save a suite: upsert its row (keeping the stored creation time on
    /// conflict), then delete every case row of the suite and re-insert the
    /// supplied list, sort positions assigned by list index.  Cases omitted
    /// from the call are removed.  The whole write happens atomically: on a
    /// case-id collision nothing changes and an error is returned.
    pub fn save_test_suite(&mut self, suite: &TestSuite) -> (r: Result<(), StoreError>)
        requires
            old(self).deep_view().wf(),
            suite.test_cases.deep_view().len() <= i64::MAX,
        ensures
            final(self).deep_view().wf(),
            r is Ok <==> save_suite_ok(old(self).deep_view(), suite.deep_view()),
            r is Ok ==> final(self).deep_view() == (StoreV {
                suites: upsert_suite(old(self).deep_view().suites, suite.deep_view()),
                cases: remove_cases_of(old(self).deep_view().cases, suite.deep_view().id)
                    + case_rows_of(suite.deep_view()),
                ..old(self).deep_view()
            }),
            r is Err ==> *final(self) == *old(self) && r == Err::<(), StoreError>(
                StoreError::DuplicateId,
            ),
    {
        if case_list_repeats_id(&suite.test_cases) {
            return Err(StoreError::DuplicateId);
        }
        if case_rows_conflict(&self.cases, suite) {
            return Err(StoreError::DuplicateId);
        }
        let new_suites = upsert_suite_rows(&self.suites, suite);
        let mut new_cases = retain_cases_not_of(&self.cases, &suite.id);
        append_case_rows(&mut new_cases, suite);
        self.suites = new_suites;
        self.cases = new_cases;
        proof {
            let pre = old(self).deep_view();
            let post = self.deep_view();
            let s = suite.deep_view();
            assert(suite.deep_view().id == suite.id@);
            assert(post =~= (StoreV {
                suites: upsert_suite(pre.suites, s),
                cases: remove_cases_of(pre.cases, s.id) + case_rows_of(s),
                ..pre
            }));
            lemma_save_suite_wf(pre, s);
        }
        Ok(())
    }

    /// Save a run: upsert its row — on conflict only the status and the
    /// completion time are refreshed, every other field keeps its stored
    /// value — then delete the run's result rows and re-insert the supplied
    /// list.
    pub fn save_run(&mut self, run: &RunResult)
        requires
            old(self).deep_view().wf(),
        ensures
            final(self).deep_view().wf(),
            final(self).deep_view() == (StoreV {
                runs: upsert_run(old(self).deep_view().runs, run.deep_view()),
                results: remove_results_of(old(self).deep_view().results, run.deep_view().id)
                    + result_rows_of(run.deep_view()),
                ..old(self).deep_view()
            }),
    {
        let new_runs = upsert_run_rows(&self.runs, run);
        let mut new_results = retain_results_not_of(&self.results, &run.id);
        append_result_rows(&mut new_results, run);
        self.runs = new_runs;
        self.results = new_results;
        proof {
            let pre = old(self).deep_view();
            let post = self.deep_view();
            let r = run.deep_view();
            assert(run.deep_view().id == run.id@);
            assert(post =~= (StoreV {
                runs: upsert_run(pre.runs, r),
                results: remove_results_of(pre.results, r.id) + result_rows_of(r),
                ..pre
            }));
            lemma_save_run_wf(pre, r);
        }
    }

    /// Delete a run by id; its result rows cascade away with it.
    pub fn delete_run(&mut self, id: &String)
        requires
            old(self).deep_view().wf(),
        ensures
            final(self).deep_view().wf(),
            final(self).deep_view() == (StoreV {
                runs: remove_run(old(self).deep_view().runs, id.deep_view()),
                results: remove_results_of(old(self).deep_view().results, id.deep_view()),
                ..old(self).deep_view()
            }),
    {
        let kept_runs = retain_runs_without(&self.runs, id);
        let kept_results = retain_results_not_of(&self.results, id);
        self.runs = kept_runs;
        self.results = kept_results;
        proof {
            let pre = old(self).deep_view();
            let post = self.deep_view();
            assert(post =~= (StoreV {
                runs: remove_run(pre.runs, id.deep_view()),
                results: remove_results_of(pre.results, id.deep_view()),
                ..pre
            }));
            lemma_remove_run_distinct(pre.runs, id.deep_view());
            lemma_remove_run_pred(pre.runs, id.deep_view());
            lemma_remove_run_retain(pre.runs, id.deep_view());
            lemma_remove_results_of_pred(pre.results, id.deep_view());
            lemma_remove_results_of_member(pre.results, id.deep_view());
            assert forall|k: int| 0 <= k < post.results.len() implies has_run(
                post.runs,
                (#[trigger] post.results[k]).run_id,
            ) by {
                let i = choose|i: int|
                    0 <= i < pre.results.len() && pre.results[i] == post.results[k];
                assert(has_run(pre.runs, pre.results[i].run_id));
                let s = choose|s: int|
                    0 <= s < pre.runs.len() && pre.runs[s].id == pre.results[i].run_id;
                assert(pre.runs[s].id != id.deep_view());
            }
        }
    }
}

// ------------------------------------------------------------------
// Retain loops over the row tables.
// ------------------------------------------------------------------

/// The suite rows whose id is not `id`.
fn retain_suites_without(rows: &Vec<SuiteRow>, id: &String) -> (r: Vec<SuiteRow>)
    ensures
        r.deep_view() == remove_suite(rows.deep_view(), id.deep_view()),
{
    let mut out: Vec<SuiteRow> = Vec::new();
    let mut i: usize = 0;
    while i < rows.len()
        invariant
            i <= rows.len(),
            out.deep_view() == remove_suite(rows.deep_view().take(i as int), id.deep_view()),
        decreases rows.len() - i,
    {
        proof {
            lemma_take_step(rows.deep_view(), i as int);
        }
        if !(rows[i].id == *id) {
            let ghost prev = out;
            let row = clone_suite_row(&rows[i]);
            let ghost rowg = row;
            out.push(row);
            proof {
                lemma_deep_view_push(prev, out, rowg);
            }
        }
        i += 1;
    }
    proof {
        lemma_take_all(rows.deep_view());
    }
    out
}

/// The case rows that do not belong to suite `sid`.
fn retain_cases_not_of(rows: &Vec<CaseRow>, sid: &String) -> (r: Vec<CaseRow>)
    ensures
        r.deep_view() == remove_cases_of(rows.deep_view(), sid.deep_view()),
{
    let mut out: Vec<CaseRow> = Vec::new();
    let mut i: usize = 0;
    while i < rows.len()
        invariant
            i <= rows.len(),
            out.deep_view() == remove_cases_of(rows.deep_view().take(i as int), sid.deep_view()),
        decreases rows.len() - i,
    {
        proof {
            lemma_take_step(rows.deep_view(), i as int);
        }
        if !(rows[i].test_suite_id == *sid) {
            let ghost prev = out;
            let row = clone_case_row(&rows[i]);
            let ghost rowg = row;
            out.push(row);
            proof {
                lemma_deep_view_push(prev, out, rowg);
            }
        }
        i += 1;
    }
    proof {
        lemma_take_all(rows.deep_view());
    }
    out
}

/// The case rows whose case id is not `cid`.
fn retain_cases_without(rows: &Vec<CaseRow>, cid: &String) -> (r: Vec<CaseRow>)
    ensures
        r.deep_view() == remove_case(rows.deep_view(), cid.deep_view()),
{
    let mut out: Vec<CaseRow> = Vec::new();
    let mut i: usize = 0;
    while i < rows.len()
        invariant
            i <= rows.len(),
            out.deep_view() == remove_case(rows.deep_view().take(i as int), cid.deep_view()),
        decreases rows.len() - i,
    {
        proof {
            lemma_take_step(rows.deep_view(), i as int);
        }
        if !(rows[i].id == *cid) {
            let ghost prev = out;
            let row = clone_case_row(&rows[i]);
            let ghost rowg = row;
            out.push(row);
            proof {
                lemma_deep_view_push(prev, out, rowg);
            }
        }
        i += 1;
    }
    proof {
        lemma_take_all(rows.deep_view());
    }
    out
}

/// The run rows whose id is not `id`.
fn retain_runs_without(rows: &Vec<RunRow>, id: &String) -> (r: Vec<RunRow>)
    ensures
        r.deep_view() == remove_run(rows.deep_view(), id.deep_view()),
{
    let mut out: Vec<RunRow> = Vec::new();
    let mut i: usize = 0;
    while i < rows.len()
        invariant
            i <= rows.len(),
            out.deep_view() == remove_run(rows.deep_view().take(i as int), id.deep_view()),
        decreases rows.len() - i,
    {
        proof {
            lemma_take_step(rows.deep_view(), i as int);
        }
        if !(rows[i].id == *id) {
            let ghost prev = out;
            let row = clone_run_row(&rows[i]);
            let ghost rowg = row;
            out.push(row);
            proof {
                lemma_deep_view_push(prev, out, rowg);
            }
        }
        i += 1;
    }
    proof {
        lemma_take_all(rows.deep_view());
    }
    out
}

/// The result rows that do not belong to run `rid`.
fn retain_results_not_of(rows: &Vec<ResultRow>, rid: &String) -> (r: Vec<ResultRow>)
    ensures
        r.deep_view() == remove_results_of(rows.deep_view(), rid.deep_view()),
{
    let mut out: Vec<ResultRow> = Vec::new();
    let mut i: usize = 0;
    while i < rows.len()
        invariant
            i <= rows.len(),
            out.deep_view() == remove_results_of(rows.deep_view().take(i as int), rid.deep_view()),
        decreases rows.len() - i,
    {
        proof {
            lemma_take_step(rows.deep_view(), i as int);
        }
        if !(rows[i].run_id == *rid) {
            let ghost prev = out;
            let row = clone_result_row(&rows[i]);
            let ghost rowg = row;
            out.push(row);
            proof {
                lemma_deep_view_push(prev, out, rowg);
            }
        }
        i += 1;
    }
    proof {
        lemma_take_all(rows.deep_view());
    }
    out
}


// ------------------------------------------------------------------
// Listing order: stable insertion sort by timestamp, newest first.
// ------------------------------------------------------------------

/// Where a suite row with time `key` lands in a table already sorted
/// newest-first: after every row at least as new.
pub open spec fn suite_insert_pos(rows: Seq<SuiteRowV>, key: i64) -> int
    decreases rows.len(),
{
    if rows.len() == 0 {
        0
    } else if rows[0].updated_at >= key {
        1 + suite_insert_pos(rows.drop_first(), key)
    } else {
        0
    }
}

/// The suite table ordered by most-recently-updated first; rows with equal
/// times keep their table order.
pub open spec fn sort_suites(rows: Seq<SuiteRowV>) -> Seq<SuiteRowV>
    decreases rows.len(),
{
    if rows.len() == 0 {
        rows
    } else {
        let prev = sort_suites(rows.drop_last());
        prev.insert(suite_insert_pos(prev, rows.last().updated_at), rows.last())
    }
}

/// Sorted newest-first by update time.
pub open spec fn suites_sorted(rows: Seq<SuiteRowV>) -> bool {
    forall|i: int, j: int|
        0 <= i < j < rows.len() ==> (#[trigger] rows[i]).updated_at >= (
        #[trigger] rows[j]).updated_at
}

/// Where a run row with start time `key` lands in a table already sorted
/// newest-first.
pub open spec fn run_insert_pos(rows: Seq<RunRowV>, key: i64) -> int
    decreases rows.len(),
{
    if rows.len() == 0 {
        0
    } else if rows[0].started_at >= key {
        1 + run_insert_pos(rows.drop_first(), key)
    } else {
        0
    }
}

/// The run table ordered by start time descending; rows with equal times
/// keep their table order.
pub open spec fn sort_runs(rows: Seq<RunRowV>) -> Seq<RunRowV>
    decreases rows.len(),
{
    if rows.len() == 0 {
        rows
    } else {
        let prev = sort_runs(rows.drop_last());
        prev.insert(run_insert_pos(prev, rows.last().started_at), rows.last())
    }
}

/// Sorted newest-first by start time.
pub open spec fn runs_sorted(rows: Seq<RunRowV>) -> bool {
    forall|i: int, j: int|
        0 <= i < j < rows.len() ==> (#[trigger] rows[i]).started_at >= (
        #[trigger] rows[j]).started_at
}

/// The insert position is the first index holding an older row.
pub proof fn lemma_suite_pos_char(rows: Seq<SuiteRowV>, key: i64, j: int)
    requires
        0 <= j <= rows.len(),
        forall|a: int| 0 <= a < j ==> (#[trigger] rows[a]).updated_at >= key,
        j < rows.len() ==> rows[j].updated_at < key,
    ensures
        suite_insert_pos(rows, key) == j,
    decreases rows.len(),
{
    if rows.len() > 0 {
        if rows[0].updated_at >= key {
            assert(j >= 1);
            assert forall|a: int| 0 <= a < j - 1 implies (#[trigger] rows.drop_first()[
            a]).updated_at >= key by {
                assert(rows[a + 1].updated_at >= key);
            }
            lemma_suite_pos_char(rows.drop_first(), key, j - 1);
        } else {
            assert(j == 0) by {
                if j > 0 {
                    assert(rows[0].updated_at >= key);
                }
            }
        }
    }
}

/// The insert position is the first index holding an older row.
pub proof fn lemma_run_pos_char(rows: Seq<RunRowV>, key: i64, j: int)
    requires
        0 <= j <= rows.len(),
        forall|a: int| 0 <= a < j ==> (#[trigger] rows[a]).started_at >= key,
        j < rows.len() ==> rows[j].started_at < key,
    ensures
        run_insert_pos(rows, key) == j,
    decreases rows.len(),
{
    if rows.len() > 0 {
        if rows[0].started_at >= key {
            assert(j >= 1);
            assert forall|a: int| 0 <= a < j - 1 implies (#[trigger] rows.drop_first()[
            a]).started_at >= key by {
                assert(rows[a + 1].started_at >= key);
            }
            lemma_run_pos_char(rows.drop_first(), key, j - 1);
        } else {
            assert(j == 0) by {
                if j > 0 {
                    assert(rows[0].started_at >= key);
                }
            }
        }
    }
}

/// Bounds and the splitting facts of the insert position.
pub proof fn lemma_suite_pos_facts(rows: Seq<SuiteRowV>, key: i64)
    ensures
        0 <= suite_insert_pos(rows, key) <= rows.len(),
        forall|a: int|
            0 <= a < suite_insert_pos(rows, key) ==> (#[trigger] rows[a]).updated_at >= key,
        suite_insert_pos(rows, key) < rows.len() ==> rows[suite_insert_pos(
            rows,
            key,
        )].updated_at < key,
    decreases rows.len(),
{
    if rows.len() > 0 {
        lemma_suite_pos_facts(rows.drop_first(), key);
        if rows[0].updated_at >= key {
            assert forall|a: int| 0 <= a < suite_insert_pos(rows, key) implies (
            #[trigger] rows[a]).updated_at >= key by {
                if a > 0 {
                    assert(rows.drop_first()[a - 1].updated_at >= key);
                }
            }
        }
    }
}

/// Bounds and the splitting facts of the insert position.
pub proof fn lemma_run_pos_facts(rows: Seq<RunRowV>, key: i64)
    ensures
        0 <= run_insert_pos(rows, key) <= rows.len(),
        forall|a: int|
            0 <= a < run_insert_pos(rows, key) ==> (#[trigger] rows[a]).started_at >= key,
        run_insert_pos(rows, key) < rows.len() ==> rows[run_insert_pos(rows, key)].started_at
            < key,
    decreases rows.len(),
{
    if rows.len() > 0 {
        lemma_run_pos_facts(rows.drop_first(), key);
        if rows[0].started_at >= key {
            assert forall|a: int| 0 <= a < run_insert_pos(rows, key) implies (
            #[trigger] rows[a]).started_at >= key by {
                if a > 0 {
                    assert(rows.drop_first()[a - 1].started_at >= key);
                }
            }
        }
    }
}

/// The sort really sorts.
pub proof fn lemma_sort_suites_sorted(rows: Seq<SuiteRowV>)
    ensures
        suites_sorted(sort_suites(rows)),
        sort_suites(rows).len() == rows.len(),
    decreases rows.len(),
{
    if rows.len() > 0 {
        lemma_sort_suites_sorted(rows.drop_last());
        let prev = sort_suites(rows.drop_last());
        let key = rows.last().updated_at;
        let p = suite_insert_pos(prev, key);
        lemma_suite_pos_facts(prev, key);
        let out = prev.insert(p, rows.last());
        assert forall|i: int, j: int| 0 <= i < j < out.len() implies (#[trigger] out[i]).updated_at
            >= (#[trigger] out[j]).updated_at by {
            if i < p && j < p {
                assert(out[i] == prev[i] && out[j] == prev[j]);
            } else if i < p && j == p {
                assert(out[i] == prev[i]);
            } else if i < p && j > p {
                assert(out[i] == prev[i] && out[j] == prev[j - 1]);
            } else if i == p && j > p {
                assert(out[j] == prev[j - 1]);
                assert(prev[p].updated_at < key || p >= prev.len());
                if j - 1 == p {
                } else {
                    assert(prev[p].updated_at >= prev[j - 1].updated_at);
                }
            } else {
                assert(out[i] == prev[i - 1] && out[j] == prev[j - 1]);
            }
        }
    }
}

/// The sort really sorts.
pub proof fn lemma_sort_runs_sorted(rows: Seq<RunRowV>)
    ensures
        runs_sorted(sort_runs(rows)),
        sort_runs(rows).len() == rows.len(),
    decreases rows.len(),
{
    if rows.len() > 0 {
        lemma_sort_runs_sorted(rows.drop_last());
        let prev = sort_runs(rows.drop_last());
        let key = rows.last().started_at;
        let p = run_insert_pos(prev, key);
        lemma_run_pos_facts(prev, key);
        let out = prev.insert(p, rows.last());
        assert forall|i: int, j: int| 0 <= i < j < out.len() implies (#[trigger] out[i]).started_at
            >= (#[trigger] out[j]).started_at by {
            if i < p && j < p {
                assert(out[i] == prev[i] && out[j] == prev[j]);
            } else if i < p && j == p {
                assert(out[i] == prev[i]);
            } else if i < p && j > p {
                assert(out[i] == prev[i] && out[j] == prev[j - 1]);
            } else if i == p && j > p {
                assert(out[j] == prev[j - 1]);
                assert(prev[p].started_at < key || p >= prev.len());
                if j - 1 == p {
                } else {
                    assert(prev[p].started_at >= prev[j - 1].started_at);
                }
            } else {
                assert(out[i] == prev[i - 1] && out[j] == prev[j - 1]);
            }
        }
    }
}

/// Sorting a table already in listing order changes nothing.
pub proof fn lemma_sort_suites_of_sorted(rows: Seq<SuiteRowV>)
    requires
        suites_sorted(rows),
    ensures
        sort_suites(rows) == rows,
    decreases rows.len(),
{
    if rows.len() > 0 {
        assert forall|i: int, j: int| 0 <= i < j < rows.drop_last().len() implies (
        #[trigger] rows.drop_last()[i]).updated_at >= (
        #[trigger] rows.drop_last()[j]).updated_at by {
            assert(rows[i].updated_at >= rows[j].updated_at);
        }
        lemma_sort_suites_of_sorted(rows.drop_last());
        let prev = rows.drop_last();
        let key = rows.last().updated_at;
        assert forall|a: int| 0 <= a < prev.len() implies (#[trigger] prev[a]).updated_at
            >= key by {
            assert(rows[a].updated_at >= rows[rows.len() - 1].updated_at);
        }
        lemma_suite_pos_char(prev, key, prev.len() as int);
        assert(sort_suites(rows) =~= rows);
    }
}

/// Sorting a table already in listing order changes nothing.
pub proof fn lemma_sort_runs_of_sorted(rows: Seq<RunRowV>)
    requires
        runs_sorted(rows),
    ensures
        sort_runs(rows) == rows,
    decreases rows.len(),
{
    if rows.len() > 0 {
        assert forall|i: int, j: int| 0 <= i < j < rows.drop_last().len() implies (
        #[trigger] rows.drop_last()[i]).started_at >= (
        #[trigger] rows.drop_last()[j]).started_at by {
            assert(rows[i].started_at >= rows[j].started_at);
        }
        lemma_sort_runs_of_sorted(rows.drop_last());
        let prev = rows.drop_last();
        let key = rows.last().started_at;
        assert forall|a: int| 0 <= a < prev.len() implies (#[trigger] prev[a]).started_at
            >= key by {
            assert(rows[a].started_at >= rows[rows.len() - 1].started_at);
        }
        lemma_run_pos_char(prev, key, prev.len() as int);
        assert(sort_runs(rows) =~= rows);
    }
}

/// Sort the suite table for listing.
fn sorted_suites(rows: &Vec<SuiteRow>) -> (r: Vec<SuiteRow>)
    ensures
        r.deep_view() == sort_suites(rows.deep_view()),
{
    let mut out: Vec<SuiteRow> = Vec::new();
    let mut i: usize = 0;
    while i < rows.len()
        invariant
            i <= rows.len(),
            out.deep_view() =~= sort_suites(rows.deep_view().take(i as int)),
            out.len() == i,
        decreases rows.len() - i,
    {
        let key = rows[i].updated_at;
        let mut j: usize = 0;
        while j < out.len() && out[j].updated_at >= key
            invariant
                j <= out.len(),
                i < rows.len(),
                key == rows.deep_view()[i as int].updated_at,
                out.deep_view() =~= sort_suites(rows.deep_view().take(i as int)),
                out.len() == i,
                forall|a: int| 0 <= a < j ==> (#[trigger] out.deep_view()[a]).updated_at >= key,
            decreases out.len() - j,
        {
            j += 1;
        }
        proof {
            lemma_suite_pos_char(out.deep_view(), key, j as int);
            lemma_take_step(rows.deep_view(), i as int);
        }
        let row = clone_suite_row(&rows[i]);
        let ghost prev = out;
        let ghost rowg = row;
        out.insert(j, row);
        proof {
            lemma_deep_view_insert(prev, out, j as int, rowg);
        }
        i += 1;
    }
    proof {
        lemma_take_all(rows.deep_view());
    }
    out
}

/// Sort the run table for listing.
fn sorted_runs(rows: &Vec<RunRow>) -> (r: Vec<RunRow>)
    ensures
        r.deep_view() == sort_runs(rows.deep_view()),
{
    let mut out: Vec<RunRow> = Vec::new();
    let mut i: usize = 0;
    while i < rows.len()
        invariant
            i <= rows.len(),
            out.deep_view() =~= sort_runs(rows.deep_view().take(i as int)),
            out.len() == i,
        decreases rows.len() - i,
    {
        let key = rows[i].started_at;
        let mut j: usize = 0;
        while j < out.len() && out[j].started_at >= key
            invariant
                j <= out.len(),
                i < rows.len(),
                key == rows.deep_view()[i as int].started_at,
                out.deep_view() =~= sort_runs(rows.deep_view().take(i as int)),
                out.len() == i,
                forall|a: int| 0 <= a < j ==> (#[trigger] out.deep_view()[a]).started_at >= key,
            decreases out.len() - j,
        {
            j += 1;
        }
        proof {
            lemma_run_pos_char(out.deep_view(), key, j as int);
            lemma_take_step(rows.deep_view(), i as int);
        }
        let row = clone_run_row(&rows[i]);
        let ghost prev = out;
        let ghost rowg = row;
        out.insert(j, row);
        proof {
            lemma_deep_view_insert(prev, out, j as int, rowg);
        }
        i += 1;
    }
    proof {
        lemma_take_all(rows.deep_view());
    }
    out
}

// ------------------------------------------------------------------
// Entity views of the tables, as listing returns them.
// ------------------------------------------------------------------

/// The test case an attached case row stands for.
pub open spec fn case_of_row(r: CaseRowV) -> TestCaseV {
    TestCaseV {
        id: r.id,
        prompt: r.prompt,
        expected_output: r.expected_output,
        scoring_method: r.scoring_method,
        weight: r.weight,
        metadata: TestCaseMetadataV {
            category: r.category,
            difficulty: r.difficulty,
            tags: r.tags,
        },
    }
}

/// The cases of suite `sid`, in table order — which well-formedness keeps
/// equal to the stored sort-position order.
pub open spec fn cases_for(rows: Seq<CaseRowV>, sid: Seq<char>) -> Seq<TestCaseV>
    decreases rows.len(),
{
    if rows.len() == 0 {
        Seq::empty()
    } else {
        let rest = cases_for(rows.drop_last(), sid);
        if rows.last().test_suite_id == sid {
            rest.push(case_of_row(rows.last()))
        } else {
            rest
        }
    }
}

/// The result an attached result row stands for.
pub open spec fn result_of_row(r: ResultRowV) -> TestCaseResultV {
    TestCaseResultV {
        test_case_id: r.test_case_id,
        model_id: r.model_id,
        response: r.response,
        token_count: r.token_count,
        latency_ms: r.latency_ms,
        status: r.status,
        error: r.error,
        score: r.score,
        streamed_content: r.streamed_content,
    }
}

/// The results of run `rid`, in table order.
pub open spec fn results_for(rows: Seq<ResultRowV>, rid: Seq<char>) -> Seq<TestCaseResultV>
    decreases rows.len(),
{
    if rows.len() == 0 {
        Seq::empty()
    } else {
        let rest = results_for(rows.drop_last(), rid);
        if rows.last().run_id == rid {
            rest.push(result_of_row(rows.last()))
        } else {
            rest
        }
    }
}

/// The suite a suite row stands for, with its cases attached.
pub open spec fn suite_entity(row: SuiteRowV, cases: Seq<CaseRowV>) -> TestSuiteV {
    TestSuiteV {
        id: row.id,
        name: row.name,
        description: row.description,
        system_prompt: row.system_prompt,
        judge_system_prompt: row.judge_system_prompt,
        test_cases: cases_for(cases, row.id),
        created_at: row.created_at,
        updated_at: row.updated_at,
    }
}

/// The run a run row stands for, with its results attached.
pub open spec fn run_entity(row: RunRowV, results: Seq<ResultRowV>) -> RunResultV {
    RunResultV {
        id: row.id,
        test_suite_id: row.test_suite_id,
        test_suite_name: row.test_suite_name,
        models: row.models,
        parameters: row.parameters,
        results: results_for(results, row.id),
        status: row.status,
        started_at: row.started_at,
        completed_at: row.completed_at,
        judge_model: row.judge_model,
    }
}

/// What listing the suites returns: newest-updated first, cases attached in
/// sort-position order.
pub open spec fn suites_view(st: StoreV) -> Seq<TestSuiteV> {
    Seq::new(
        sort_suites(st.suites).len(),
        |i: int| suite_entity(sort_suites(st.suites)[i], st.cases),
    )
}

/// What listing the runs returns: latest-started first, results attached.
pub open spec fn runs_view(st: StoreV) -> Seq<RunResultV> {
    Seq::new(sort_runs(st.runs).len(), |i: int| run_entity(sort_runs(st.runs)[i], st.results))
}

/// Rebuild the test case an attached case row stands for.
fn build_case(row: &CaseRow) -> (c: TestCase)
    ensures
        c.deep_view() == case_of_row(row.deep_view()),
{
    let c = TestCase {
        id: row.id.clone(),
        prompt: row.prompt.clone(),
        expected_output: clone_opt_string(&row.expected_output),
        scoring_method: row.scoring_method.clone(),
        weight: row.weight.clone(),
        metadata: TestCaseMetadata {
            category: clone_opt_string(&row.category),
            difficulty: clone_opt_string(&row.difficulty),
            tags: clone_strings(&row.tags),
        },
    };
    proof {
        assert(c.deep_view() =~= case_of_row(row.deep_view()));
    }
    c
}

/// Rebuild the result an attached result row stands for.
fn build_result(row: &ResultRow) -> (c: TestCaseResult)
    ensures
        c.deep_view() == result_of_row(row.deep_view()),
{
    let c = TestCaseResult {
        test_case_id: row.test_case_id.clone(),
        model_id: row.model_id.clone(),
        response: row.response.clone(),
        token_count: row.token_count,
        latency_ms: row.latency_ms,
        status: row.status.clone(),
        error: clone_opt_string(&row.error),
        score: clone_opt_score(&row.score),
        streamed_content: clone_opt_string(&row.streamed_content),
    };
    proof {
        assert(c.deep_view() =~= result_of_row(row.deep_view()));
    }
    c
}

// ------------------------------------------------------------------
// The snapshot facade: bulk replace over the whole store.
// ------------------------------------------------------------------

/// Some suite of the document carries this id.
pub open spec fn doc_has_suite(docs: Seq<TestSuiteV>, id: Seq<char>) -> bool {
    exists|i: int| 0 <= i < docs.len() && docs[i].id == id
}

/// Some run of the document carries this id.
pub open spec fn doc_has_run(docs: Seq<RunResultV>, id: Seq<char>) -> bool {
    exists|i: int| 0 <= i < docs.len() && docs[i].id == id
}

/// The suite rows whose id the document still names (reconciliation:
/// everything else is deleted).
pub open spec fn keep_doc_suites(rows: Seq<SuiteRowV>, docs: Seq<TestSuiteV>) -> Seq<SuiteRowV>
    decreases rows.len(),
{
    if rows.len() == 0 {
        rows
    } else {
        let rest = keep_doc_suites(rows.drop_last(), docs);
        if doc_has_suite(docs, rows.last().id) {
            rest.push(rows.last())
        } else {
            rest
        }
    }
}

/// The run rows whose id the document still names.
pub open spec fn keep_doc_runs(rows: Seq<RunRowV>, docs: Seq<RunResultV>) -> Seq<RunRowV>
    decreases rows.len(),
{
    if rows.len() == 0 {
        rows
    } else {
        let rest = keep_doc_runs(rows.drop_last(), docs);
        if doc_has_run(docs, rows.last().id) {
            rest.push(rows.last())
        } else {
            rest
        }
    }
}

/// Every suite of the document upserted in order.
pub open spec fn upsert_suites_all(rows: Seq<SuiteRowV>, docs: Seq<TestSuiteV>) -> Seq<SuiteRowV>
    decreases docs.len(),
{
    if docs.len() == 0 {
        rows
    } else {
        upsert_suite(upsert_suites_all(rows, docs.drop_last()), docs.last())
    }
}

/// Every run of the document upserted in order.
pub open spec fn upsert_runs_all(rows: Seq<RunRowV>, docs: Seq<RunResultV>) -> Seq<RunRowV>
    decreases docs.len(),
{
    if docs.len() == 0 {
        rows
    } else {
        upsert_run(upsert_runs_all(rows, docs.drop_last()), docs.last())
    }
}

/// The case rows a snapshot write stores: the rows of every document suite,
/// in document order.
pub open spec fn doc_case_rows(docs: Seq<TestSuiteV>) -> Seq<CaseRowV>
    decreases docs.len(),
{
    if docs.len() == 0 {
        Seq::empty()
    } else {
        doc_case_rows(docs.drop_last()) + case_rows_of(docs.last())
    }
}

/// The result rows a snapshot write stores.
pub open spec fn doc_result_rows(docs: Seq<RunResultV>) -> Seq<ResultRowV>
    decreases docs.len(),
{
    if docs.len() == 0 {
        Seq::empty()
    } else {
        doc_result_rows(docs.drop_last()) + result_rows_of(docs.last())
    }
}

/// The document's suites repeat no id.
pub open spec fn doc_suite_ids_distinct(docs: Seq<TestSuiteV>) -> bool {
    forall|i: int, j: int|
        0 <= i < j < docs.len() ==> #[trigger] docs[i].id != #[trigger] docs[j].id
}

/// The document's runs repeat no id.
pub open spec fn doc_run_ids_distinct(docs: Seq<RunResultV>) -> bool {
    forall|i: int, j: int|
        0 <= i < j < docs.len() ==> #[trigger] docs[i].id != #[trigger] docs[j].id
}

/// When a snapshot write succeeds: the document repeats no suite id, no run
/// id, and no case id anywhere.
pub open spec fn write_snapshot_ok(doc: BenchmakerDbV) -> bool {
    &&& doc_suite_ids_distinct(doc.test_suites)
    &&& doc_run_ids_distinct(doc.runs)
    &&& cases_distinct(doc_case_rows(doc.test_suites))
}

/// Does the document repeat a suite id?
fn suite_list_repeats_id(docs: &Vec<TestSuite>) -> (b: bool)
    ensures
        b == !doc_suite_ids_distinct(docs.deep_view()),
{
    let n = docs.len();
    let mut i: usize = 0;
    while i < n
        invariant
            i <= n,
            n == docs.len(),
            forall|a: int, b: int|
                0 <= a < b < n && a < i ==> (#[trigger] docs.deep_view()[a]).id != (
                #[trigger] docs.deep_view()[b]).id,
        decreases n - i,
    {
        let mut j: usize = i + 1;
        while j < n
            invariant
                i < j <= n,
                n == docs.len(),
                forall|a: int, b: int|
                    0 <= a < b < n && a < i ==> (#[trigger] docs.deep_view()[a]).id != (
                    #[trigger] docs.deep_view()[b]).id,
                forall|b: int|
                    i < b < j ==> (#[trigger] docs.deep_view()[b]).id != docs.deep_view()[
                    i as int].id,
            decreases n - j,
    {
            if docs[i].id == docs[j].id {
                proof {
                    assert((docs.deep_view()[i as int]).id == (docs.deep_view()[j as int]).id);
                    assert(!doc_suite_ids_distinct(docs.deep_view()));
                }
                return true;
            }
            j += 1;
        }
        i += 1;
    }
    false
}

/// Does the document repeat a run id?
fn run_list_repeats_id(docs: &Vec<RunResult>) -> (b: bool)
    ensures
        b == !doc_run_ids_distinct(docs.deep_view()),
{
    let n = docs.len();
    let mut i: usize = 0;
    while i < n
        invariant
            i <= n,
            n == docs.len(),
            forall|a: int, b: int|
                0 <= a < b < n && a < i ==> (#[trigger] docs.deep_view()[a]).id != (
                #[trigger] docs.deep_view()[b]).id,
        decreases n - i,
    {
        let mut j: usize = i + 1;
        while j < n
            invariant
                i < j <= n,
                n == docs.len(),
                forall|a: int, b: int|
                    0 <= a < b < n && a < i ==> (#[trigger] docs.deep_view()[a]).id != (
                    #[trigger] docs.deep_view()[b]).id,
                forall|b: int|
                    i < b < j ==> (#[trigger] docs.deep_view()[b]).id != docs.deep_view()[
                    i as int].id,
            decreases n - j,
        {
            if docs[i].id == docs[j].id {
                proof {
                    assert((docs.deep_view()[i as int]).id == (docs.deep_view()[j as int]).id);
                    assert(!doc_run_ids_distinct(docs.deep_view()));
                }
                return true;
            }
            j += 1;
        }
        i += 1;
    }
    false
}

/// Does the built case table repeat an id?
fn case_rows_repeat_id(rows: &Vec<CaseRow>) -> (b: bool)
    ensures
        b == !cases_distinct(rows.deep_view()),
{
    let n = rows.len();
    let mut i: usize = 0;
    while i < n
        invariant
            i <= n,
            n == rows.len(),
            forall|a: int, b: int|
                0 <= a < b < n && a < i ==> (#[trigger] rows.deep_view()[a]).id != (
                #[trigger] rows.deep_view()[b]).id,
        decreases n - i,
    {
        let mut j: usize = i + 1;
        while j < n
            invariant
                i < j <= n,
                n == rows.len(),
                forall|a: int, b: int|
                    0 <= a < b < n && a < i ==> (#[trigger] rows.deep_view()[a]).id != (
                    #[trigger] rows.deep_view()[b]).id,
                forall|b: int|
                    i < b < j ==> (#[trigger] rows.deep_view()[b]).id != rows.deep_view()[
                    i as int].id,
            decreases n - j,
        {
            if rows[i].id == rows[j].id {
                proof {
                    assert((rows.deep_view()[i as int]).id == (rows.deep_view()[j as int]).id);
                    assert(!cases_distinct(rows.deep_view()));
                }
                return true;
            }
            j += 1;
        }
        i += 1;
    }
    false
}

/// Keep only the suite rows whose id the document still names.
fn retain_doc_suites(rows: &Vec<SuiteRow>, docs: &Vec<TestSuite>) -> (r: Vec<SuiteRow>)
    ensures
        r.deep_view() == keep_doc_suites(rows.deep_view(), docs.deep_view()),
{
    let mut out: Vec<SuiteRow> = Vec::new();
    let mut i: usize = 0;
    while i < rows.len()
        invariant
            i <= rows.len(),
            out.deep_view() == keep_doc_suites(rows.deep_view().take(i as int), docs.deep_view()),
        decreases rows.len() - i,
    {
        proof {
            lemma_take_step(rows.deep_view(), i as int);
        }
        let mut named: bool = false;
        let mut j: usize = 0;
        while j < docs.len()
            invariant
                j <= docs.len(),
                i < rows.len(),
                named == exists|b: int|
                    0 <= b < j && (#[trigger] docs.deep_view()[b]).id == rows.deep_view()[
                    i as int].id,
            decreases docs.len() - j,
        {
            if docs[j].id == rows[i].id {
                proof {
                    assert((docs.deep_view()[j as int]).id == (rows.deep_view()[i as int]).id);
                }
                named = true;
            }
            j += 1;
        }
        proof {
            assert(named == doc_has_suite(docs.deep_view(), rows.deep_view()[i as int].id));
        }
        if named {
            let ghost prev = out;
            let row = clone_suite_row(&rows[i]);
            let ghost rowg = row;
            out.push(row);
            proof {
                lemma_deep_view_push(prev, out, rowg);
            }
        }
        i += 1;
    }
    proof {
        lemma_take_all(rows.deep_view());
    }
    out
}

/// Keep only the run rows whose id the document still names.
fn retain_doc_runs(rows: &Vec<RunRow>, docs: &Vec<RunResult>) -> (r: Vec<RunRow>)
    ensures
        r.deep_view() == keep_doc_runs(rows.deep_view(), docs.deep_view()),
{
    let mut out: Vec<RunRow> = Vec::new();
    let mut i: usize = 0;
    while i < rows.len()
        invariant
            i <= rows.len(),
            out.deep_view() == keep_doc_runs(rows.deep_view().take(i as int), docs.deep_view()),
        decreases rows.len() - i,
    {
        proof {
            lemma_take_step(rows.deep_view(), i as int);
        }
        let mut named: bool = false;
        let mut j: usize = 0;
        while j < docs.len()
            invariant
                j <= docs.len(),
                i < rows.len(),
                named == exists|b: int|
                    0 <= b < j && (#[trigger] docs.deep_view()[b]).id == rows.deep_view()[
                    i as int].id,
            decreases docs.len() - j,
        {
            if docs[j].id == rows[i].id {
                proof {
                    assert((docs.deep_view()[j as int]).id == (rows.deep_view()[i as int]).id);
                }
                named = true;
            }
            j += 1;
        }
        proof {
            assert(named == doc_has_run(docs.deep_view(), rows.deep_view()[i as int].id));
        }
        if named {
            let ghost prev = out;
            let row = clone_run_row(&rows[i]);
            let ghost rowg = row;
            out.push(row);
            proof {
                lemma_deep_view_push(prev, out, rowg);
            }
        }
        i += 1;
    }
    proof {
        lemma_take_all(rows.deep_view());
    }
    out
}

// ------------------------------------------------------------------
// The one-time migration from the legacy aggregate blob.
// ------------------------------------------------------------------

/// Re-inserting a legacy suite's case list with insert-or-replace by
/// primary key: each case first evicts any stored row carrying its id, then
/// lands at the end with its list position as sort position.
pub open spec fn legacy_put_cases(
    cases: Seq<CaseRowV>,
    list: Seq<TestCaseV>,
    sid: Seq<char>,
) -> Seq<CaseRowV>
    decreases list.len(),
{
    if list.len() == 0 {
        cases
    } else {
        let prev = legacy_put_cases(cases, list.drop_last(), sid);
        remove_case(prev, list.last().id).push(
            case_row_at(list.last(), sid, (list.len() - 1) as i64),
        )
    }
}

/// The suite table after the legacy suites are re-inserted: replacing a
/// suite row evicts any stored row with its id.
pub open spec fn legacy_suites(suites: Seq<SuiteRowV>, docs: Seq<TestSuiteV>) -> Seq<SuiteRowV>
    decreases docs.len(),
{
    if docs.len() == 0 {
        suites
    } else {
        remove_suite(legacy_suites(suites, docs.drop_last()), docs.last().id).push(
            new_suite_row(docs.last()),
        )
    }
}

/// The case table after the legacy suites are re-inserted: replacing a
/// suite row cascades its stored cases away, then the suite's own list goes
/// in.
pub open spec fn legacy_cases(cases: Seq<CaseRowV>, docs: Seq<TestSuiteV>) -> Seq<CaseRowV>
    decreases docs.len(),
{
    if docs.len() == 0 {
        cases
    } else {
        legacy_put_cases(
            remove_cases_of(legacy_cases(cases, docs.drop_last()), docs.last().id),
            docs.last().test_cases,
            docs.last().id,
        )
    }
}

/// The run table after the legacy runs are re-inserted.
pub open spec fn legacy_runs(runs: Seq<RunRowV>, docs: Seq<RunResultV>) -> Seq<RunRowV>
    decreases docs.len(),
{
    if docs.len() == 0 {
        runs
    } else {
        remove_run(legacy_runs(runs, docs.drop_last()), docs.last().id).push(
            new_run_row(docs.last()),
        )
    }
}

/// The result table after the legacy runs are re-inserted: replacing a run
/// row cascades its stored results away, then the run's own list is
/// appended.
pub open spec fn legacy_results(results: Seq<ResultRowV>, docs: Seq<RunResultV>) -> Seq<
    ResultRowV,
>
    decreases docs.len(),
{
    if docs.len() == 0 {
        results
    } else {
        remove_results_of(legacy_results(results, docs.drop_last()), docs.last().id)
            + result_rows_of(docs.last())
    }
}

/// The schema generation a store reports: zero while the version row is
/// absent.
pub open spec fn stored_version(st: StoreV) -> int {
    match st.version {
        Some(v) => v as int,
        None => 0,
    }
}

/// When a migration succeeds: always, unless an upgrade is due and the
/// legacy payload did not decode.
pub open spec fn migrate_ok(st: StoreV) -> bool {
    stored_version(st) >= CURRENT_SCHEMA_VERSION || !(st.legacy matches Some(
        Some(LegacySnapshotV::Invalid(_)),
    ))
}

/// The decode error carried by a legacy payload that did not parse.
pub open spec fn migrate_error(st: StoreV) -> Seq<char> {
    match st.legacy {
        Some(Some(LegacySnapshotV::Invalid(e))) => e,
        _ => Seq::empty(),
    }
}

/// The store a successful migration leaves behind.  At or above the current
/// generation nothing moves.  Below it, the app-state row is created if
/// absent; a decoded legacy payload is re-inserted with insert-or-replace
/// semantics, the pointer fields overwrite the app state, and the legacy
/// table is dropped (a present but empty legacy table stays); finally the
/// version row is stamped.
pub open spec fn migrate_result(st: StoreV) -> StoreV {
    if stored_version(st) >= CURRENT_SCHEMA_VERSION {
        st
    } else {
        let base = StoreV {
            app_state: if st.app_state is Some {
                st.app_state
            } else {
                Some(AppStateV { active_test_suite_id: None, current_run_id: None })
            },
            ..st
        };
        match st.legacy {
            Some(Some(LegacySnapshotV::Decoded(db))) => {
                StoreV {
                    version: Some(CURRENT_SCHEMA_VERSION),
                    suites: legacy_suites(base.suites, db.test_suites),
                    cases: legacy_cases(base.cases, db.test_suites),
                    runs: legacy_runs(base.runs, db.runs),
                    results: legacy_results(base.results, db.runs),
                    app_state: Some(
                        AppStateV {
                            active_test_suite_id: db.active_test_suite_id,
                            current_run_id: db.current_run_id,
                        },
                    ),
                    legacy: None,
                }
            },
            _ => StoreV { version: Some(CURRENT_SCHEMA_VERSION), ..base },
        }
    }
}

/// Everything the migration requires of a decoded legacy payload: each
/// suite's case list short enough for its positions to be numbered.
pub open spec fn legacy_doc_fits(st: StoreV) -> bool {
    st.legacy matches Some(Some(LegacySnapshotV::Decoded(db))) ==> forall|i: int|
        0 <= i < db.test_suites.len() ==> (#[trigger] db.test_suites[i]).test_cases.len()
            <= i64::MAX
}

// ------------------------------------------------------------------
// Well-formedness of the save operations.
// ------------------------------------------------------------------

/// The ids of an upserted suite table are those of the old one, plus the
/// saved suite's id when it is fresh.
pub proof fn lemma_upsert_suite_ids(rows: Seq<SuiteRowV>, s: TestSuiteV)
    ensures
        has_suite(rows, s.id) ==> upsert_suite(rows, s).len() == rows.len(),
        has_suite(rows, s.id) ==> forall|i: int|
            0 <= i < rows.len() ==> (#[trigger] upsert_suite(rows, s)[i]).id == rows[i].id,
        !has_suite(rows, s.id) ==> upsert_suite(rows, s) == rows.push(new_suite_row(s)),
        suites_distinct(rows) ==> suites_distinct(upsert_suite(rows, s)),
        forall|id: Seq<char>|
            #[trigger] has_suite(upsert_suite(rows, s), id) <==> has_suite(rows, id) || id
                == s.id,
{
    if has_suite(rows, s.id) {
        assert forall|id: Seq<char>|
            #[trigger] has_suite(upsert_suite(rows, s), id) <==> has_suite(rows, id) || id
                == s.id by {
            let up = upsert_suite(rows, s);
            if has_suite(up, id) {
                let i = choose|i: int| 0 <= i < up.len() && up[i].id == id;
                assert(rows[i].id == id);
            }
            if has_suite(rows, id) {
                let i = choose|i: int| 0 <= i < rows.len() && rows[i].id == id;
                assert(up[i].id == id);
            }
            if id == s.id {
                let i = choose|i: int| 0 <= i < rows.len() && rows[i].id == s.id;
                assert(up[i].id == id);
            }
        }
    } else {
        let up = rows.push(new_suite_row(s));
        assert forall|id: Seq<char>|
            #[trigger] has_suite(up, id) <==> has_suite(rows, id) || id == s.id by {
            if has_suite(up, id) {
                let i = choose|i: int| 0 <= i < up.len() && up[i].id == id;
                if i < rows.len() {
                    assert(rows[i].id == id);
                } else {
                    assert(id == s.id);
                }
            }
            if has_suite(rows, id) {
                let i = choose|i: int| 0 <= i < rows.len() && rows[i].id == id;
                assert(up[i].id == id);
            }
            if id == s.id {
                assert(up[rows.len() as int].id == id);
            }
        }
        if suites_distinct(rows) {
            assert forall|i: int, j: int| 0 <= i < j < up.len() implies (#[trigger] up[i]).id != (
            #[trigger] up[j]).id by {
                if j < rows.len() {
                    assert(rows[i].id != rows[j].id);
                } else {
                    assert(up[j].id == s.id);
                    assert(up[i].id == rows[i].id);
                    assert(!(rows[i].id == s.id));
                }
            }
        }
    }
}

/// The ids of an upserted run table are those of the old one, plus the
/// saved run's id when it is fresh.
pub proof fn lemma_upsert_run_ids(rows: Seq<RunRowV>, r: RunResultV)
    ensures
        has_run(rows, r.id) ==> upsert_run(rows, r).len() == rows.len(),
        has_run(rows, r.id) ==> forall|i: int|
            0 <= i < rows.len() ==> (#[trigger] upsert_run(rows, r)[i]).id == rows[i].id,
        !has_run(rows, r.id) ==> upsert_run(rows, r) == rows.push(new_run_row(r)),
        runs_distinct(rows) ==> runs_distinct(upsert_run(rows, r)),
        forall|id: Seq<char>|
            #[trigger] has_run(upsert_run(rows, r), id) <==> has_run(rows, id) || id == r.id,
{
    if has_run(rows, r.id) {
        assert forall|id: Seq<char>|
            #[trigger] has_run(upsert_run(rows, r), id) <==> has_run(rows, id) || id == r.id by {
            let up = upsert_run(rows, r);
            if has_run(up, id) {
                let i = choose|i: int| 0 <= i < up.len() && up[i].id == id;
                assert(rows[i].id == id);
            }
            if has_run(rows, id) {
                let i = choose|i: int| 0 <= i < rows.len() && rows[i].id == id;
                assert(up[i].id == id);
            }
            if id == r.id {
                let i = choose|i: int| 0 <= i < rows.len() && rows[i].id == r.id;
                assert(up[i].id == id);
            }
        }
    } else {
        let up = rows.push(new_run_row(r));
        assert forall|id: Seq<char>|
            #[trigger] has_run(up, id) <==> has_run(rows, id) || id == r.id by {
            if has_run(up, id) {
                let i = choose|i: int| 0 <= i < up.len() && up[i].id == id;
                if i < rows.len() {
                    assert(rows[i].id == id);
                } else {
                    assert(id == r.id);
                }
            }
            if has_run(rows, id) {
                let i = choose|i: int| 0 <= i < rows.len() && rows[i].id == id;
                assert(up[i].id == id);
            }
            if id == r.id {
                assert(up[rows.len() as int].id == id);
            }
        }
        if runs_distinct(rows) {
            assert forall|i: int, j: int| 0 <= i < j < up.len() implies (#[trigger] up[i]).id != (
            #[trigger] up[j]).id by {
                if j < rows.len() {
                    assert(rows[i].id != rows[j].id);
                } else {
                    assert(up[j].id == r.id);
                    assert(up[i].id == rows[i].id);
                    assert(!(rows[i].id == r.id));
                }
            }
        }
    }
}

/// Unpacking the success condition of a full-suite save at one row.
proof fn lemma_ok_no_conflict(st: StoreV, s: TestSuiteV, m: int)
    requires
        save_suite_ok(st, s),
        0 <= m < st.cases.len(),
        st.cases[m].test_suite_id != s.id,
    ensures
        !case_list_has_id(s.test_cases, st.cases[m].id),
{
    assert(0 <= m < st.cases.len() && (st.cases[m]).test_suite_id != s.id);
}

/// A successful full-suite save leaves a well-formed store.
#[verifier::rlimit(60)]
proof fn lemma_save_suite_wf(pre: StoreV, s: TestSuiteV)
    requires
        pre.wf(),
        save_suite_ok(pre, s),
        s.test_cases.len() <= i64::MAX,
    ensures
        (StoreV {
            suites: upsert_suite(pre.suites, s),
            cases: remove_cases_of(pre.cases, s.id) + case_rows_of(s),
            ..pre
        }).wf(),
{
    let suites2 = upsert_suite(pre.suites, s);
    let kept = remove_cases_of(pre.cases, s.id);
    let fresh = case_rows_of(s);
    let cases2 = kept + fresh;
    lemma_upsert_suite_ids(pre.suites, s);
    lemma_remove_cases_of_pred(pre.cases, s.id);
    lemma_remove_cases_of_member(pre.cases, s.id);
    lemma_remove_cases_of_distinct(pre.cases, s.id);
    lemma_remove_cases_of_ordered(pre.cases, s.id);
    // distinct case ids across the new case table
    assert forall|i: int, j: int| 0 <= i < j < cases2.len() implies (#[trigger] cases2[i]).id != (
    #[trigger] cases2[j]).id by {
        if j < kept.len() {
            assert(cases2[i] == kept[i]);
            assert(cases2[j] == kept[j]);
        } else if i >= kept.len() {
            assert(cases2[i] == fresh[i - kept.len()]);
            assert(cases2[j] == fresh[j - kept.len()]);
            assert(s.test_cases[i - kept.len()].id != s.test_cases[j - kept.len()].id);
        } else {
            assert(cases2[i] == kept[i]);
            assert(cases2[j] == fresh[j - kept.len()]);
            let m = choose|m: int| #![trigger pre.cases[m]]
                0 <= m < pre.cases.len() && pre.cases[m] == kept[i];
            assert(kept[i].test_suite_id != s.id);
            assert(pre.cases[m].test_suite_id != s.id);
            lemma_ok_no_conflict(pre, s, m);
            assert(!case_list_has_id(s.test_cases, pre.cases[m].id));
            assert(s.test_cases[j - kept.len()].id != kept[i].id);
        }
    }
    // per-suite ordering of the new case table
    assert forall|i: int, j: int|
        0 <= i < j < cases2.len() && (#[trigger] cases2[i]).test_suite_id == (
        #[trigger] cases2[j]).test_suite_id implies cases2[i].sort_order < cases2[
    j].sort_order by {
        if j < kept.len() {
            assert(cases2[i] == kept[i]);
            assert(cases2[j] == kept[j]);
        } else if i >= kept.len() {
            assert(cases2[i] == fresh[i - kept.len()]);
            assert(cases2[j] == fresh[j - kept.len()]);
            assert(0 <= i - kept.len() < j - kept.len() <= i64::MAX);
            assert(fresh[i - kept.len()].sort_order == (i - kept.len()) as i64);
            assert(fresh[j - kept.len()].sort_order == (j - kept.len()) as i64);
        } else {
            assert(cases2[i] == kept[i]);
            assert(cases2[j] == fresh[j - kept.len()]);
            assert(kept[i].test_suite_id != s.id);
            assert(fresh[j - kept.len()].test_suite_id == s.id);
        }
    }
    // referential integrity of the new case table
    assert forall|i: int| 0 <= i < cases2.len() implies has_suite(
        suites2,
        (#[trigger] cases2[i]).test_suite_id,
    ) by {
        if i < kept.len() {
            assert(cases2[i] == kept[i]);
            let m = choose|m: int| #![trigger pre.cases[m]]
                0 <= m < pre.cases.len() && pre.cases[m] == kept[i];
            assert(has_suite(pre.suites, pre.cases[m].test_suite_id));
        } else {
            assert(cases2[i] == fresh[i - kept.len()]);
            assert(cases2[i].test_suite_id == s.id);
            assert(has_suite(suites2, s.id));
        }
    }
    // runs and results untouched
    assert forall|i: int| 0 <= i < pre.results.len() implies has_run(
        pre.runs,
        (#[trigger] pre.results[i]).run_id,
    ) by {}
}

/// A run save leaves a well-formed store.
#[verifier::rlimit(60)]
proof fn lemma_save_run_wf(pre: StoreV, r: RunResultV)
    requires
        pre.wf(),
    ensures
        (StoreV {
            runs: upsert_run(pre.runs, r),
            results: remove_results_of(pre.results, r.id) + result_rows_of(r),
            ..pre
        }).wf(),
{
    let runs2 = upsert_run(pre.runs, r);
    let kept = remove_results_of(pre.results, r.id);
    let fresh = result_rows_of(r);
    let results2 = kept + fresh;
    lemma_upsert_run_ids(pre.runs, r);
    lemma_remove_results_of_pred(pre.results, r.id);
    lemma_remove_results_of_member(pre.results, r.id);
    assert forall|i: int| 0 <= i < results2.len() implies has_run(
        runs2,
        (#[trigger] results2[i]).run_id,
    ) by {
        if i < kept.len() {
            assert(results2[i] == kept[i]);
            let m = choose|m: int| #![trigger pre.results[m]]
                0 <= m < pre.results.len() && pre.results[m] == kept[i];
            assert(has_run(pre.runs, pre.results[m].run_id));
        } else {
            assert(results2[i] == fresh[i - kept.len()]);
            assert(results2[i].run_id == r.id);
            assert(has_run(runs2, r.id));
        }
    }
}


// ------------------------------------------------------------------
// Well-formedness of the snapshot write.
// ------------------------------------------------------------------

/// Every row surviving the suite reconciliation is one of the original
/// rows, and distinctness survives with it.
proof fn lemma_keep_doc_suites_facts(rows: Seq<SuiteRowV>, docs: Seq<TestSuiteV>)
    ensures
        forall|k: int| #![trigger keep_doc_suites(rows, docs)[k]]
            0 <= k < keep_doc_suites(rows, docs).len() ==> exists|i: int| #![trigger rows[i]]
                0 <= i < rows.len() && rows[i] == keep_doc_suites(rows, docs)[k],
        suites_distinct(rows) ==> suites_distinct(keep_doc_suites(rows, docs)),
    decreases rows.len(),
{
    if rows.len() > 0 {
        lemma_keep_doc_suites_facts(rows.drop_last(), docs);
        let rest = keep_doc_suites(rows.drop_last(), docs);
        assert forall|k: int| #![trigger keep_doc_suites(rows, docs)[k]]
            0 <= k < keep_doc_suites(rows, docs).len() implies exists|i: int| #![trigger rows[i]]
            0 <= i < rows.len() && rows[i] == keep_doc_suites(rows, docs)[k] by {
            if k < rest.len() {
                assert(keep_doc_suites(rows, docs)[k] == rest[k]);
                let i = choose|i: int| #![trigger rows.drop_last()[i]]
                    0 <= i < rows.drop_last().len() && rows.drop_last()[i] == rest[k];
                assert(rows[i] == keep_doc_suites(rows, docs)[k]);
            } else {
                assert(rows[rows.len() - 1] == keep_doc_suites(rows, docs)[k]);
            }
        }
        if suites_distinct(rows) {
            assert forall|i: int, j: int| 0 <= i < j < rows.drop_last().len() implies (
            #[trigger] rows.drop_last()[i]).id != (#[trigger] rows.drop_last()[j]).id by {
                assert(rows[i].id != rows[j].id);
            }
            if doc_has_suite(docs, rows.last().id) {
                assert forall|k: int| 0 <= k < rest.len() implies (#[trigger] rest[k]).id
                    != rows.last().id by {
                    let i = choose|i: int| #![trigger rows.drop_last()[i]]
                        0 <= i < rows.drop_last().len() && rows.drop_last()[i] == rest[k];
                    assert(rows[i].id != rows[rows.len() - 1].id);
                }
            }
        }
    }
}

/// Every row surviving the run reconciliation is one of the original rows,
/// and distinctness survives with it.
proof fn lemma_keep_doc_runs_facts(rows: Seq<RunRowV>, docs: Seq<RunResultV>)
    ensures
        forall|k: int| #![trigger keep_doc_runs(rows, docs)[k]]
            0 <= k < keep_doc_runs(rows, docs).len() ==> exists|i: int| #![trigger rows[i]]
                0 <= i < rows.len() && rows[i] == keep_doc_runs(rows, docs)[k],
        runs_distinct(rows) ==> runs_distinct(keep_doc_runs(rows, docs)),
    decreases rows.len(),
{
    if rows.len() > 0 {
        lemma_keep_doc_runs_facts(rows.drop_last(), docs);
        let rest = keep_doc_runs(rows.drop_last(), docs);
        assert forall|k: int| #![trigger keep_doc_runs(rows, docs)[k]]
            0 <= k < keep_doc_runs(rows, docs).len() implies exists|i: int| #![trigger rows[i]]
            0 <= i < rows.len() && rows[i] == keep_doc_runs(rows, docs)[k] by {
            if k < rest.len() {
                assert(keep_doc_runs(rows, docs)[k] == rest[k]);
                let i = choose|i: int| #![trigger rows.drop_last()[i]]
                    0 <= i < rows.drop_last().len() && rows.drop_last()[i] == rest[k];
                assert(rows[i] == keep_doc_runs(rows, docs)[k]);
            } else {
                assert(rows[rows.len() - 1] == keep_doc_runs(rows, docs)[k]);
            }
        }
        if runs_distinct(rows) {
            assert forall|i: int, j: int| 0 <= i < j < rows.drop_last().len() implies (
            #[trigger] rows.drop_last()[i]).id != (#[trigger] rows.drop_last()[j]).id by {
                assert(rows[i].id != rows[j].id);
            }
            if doc_has_run(docs, rows.last().id) {
                assert forall|k: int| 0 <= k < rest.len() implies (#[trigger] rest[k]).id
                    != rows.last().id by {
                    let i = choose|i: int| #![trigger rows.drop_last()[i]]
                        0 <= i < rows.drop_last().len() && rows.drop_last()[i] == rest[k];
                    assert(rows[i].id != rows[rows.len() - 1].id);
                }
            }
        }
    }
}

/// Upserting every suite of a document keeps ids unique, and afterwards an
/// id is present exactly when it was present before or the document names
/// it.
proof fn lemma_upsert_suites_all_props(rows: Seq<SuiteRowV>, docs: Seq<TestSuiteV>)
    ensures
        suites_distinct(rows) ==> suites_distinct(upsert_suites_all(rows, docs)),
        forall|id: Seq<char>|
            #[trigger] has_suite(upsert_suites_all(rows, docs), id) <==> has_suite(rows, id)
                || doc_has_suite(docs, id),
    decreases docs.len(),
{
    if docs.len() == 0 {
        assert forall|id: Seq<char>|
            #[trigger] has_suite(upsert_suites_all(rows, docs), id) <==> has_suite(rows, id)
                || doc_has_suite(docs, id) by {
            if doc_has_suite(docs, id) {
                let i = choose|i: int| 0 <= i < docs.len() && docs[i].id == id;
                assert(false);
            }
        }
    } else {
        lemma_upsert_suites_all_props(rows, docs.drop_last());
        let mid = upsert_suites_all(rows, docs.drop_last());
        lemma_upsert_suite_ids(mid, docs.last());
        assert forall|id: Seq<char>|
            #[trigger] has_suite(upsert_suites_all(rows, docs), id) <==> has_suite(rows, id)
                || doc_has_suite(docs, id) by {
            assert(has_suite(upsert_suites_all(rows, docs), id) <==> has_suite(mid, id) || id
                == docs.last().id);
            if doc_has_suite(docs.drop_last(), id) {
                let i = choose|i: int|
                    0 <= i < docs.drop_last().len() && docs.drop_last()[i].id == id;
                assert(docs[i].id == id);
            }
            if id == docs.last().id {
                assert(docs[docs.len() - 1].id == id);
            }
            if doc_has_suite(docs, id) && id != docs.last().id {
                let i = choose|i: int| 0 <= i < docs.len() && docs[i].id == id;
                assert(i < docs.len() - 1);
                assert(docs.drop_last()[i].id == id);
            }
        }
    }
}

/// Upserting every run of a document keeps ids unique, and afterwards an id
/// is present exactly when it was present before or the document names it.
proof fn lemma_upsert_runs_all_props(rows: Seq<RunRowV>, docs: Seq<RunResultV>)
    ensures
        runs_distinct(rows) ==> runs_distinct(upsert_runs_all(rows, docs)),
        forall|id: Seq<char>|
            #[trigger] has_run(upsert_runs_all(rows, docs), id) <==> has_run(rows, id)
                || doc_has_run(docs, id),
    decreases docs.len(),
{
    if docs.len() == 0 {
        assert forall|id: Seq<char>|
            #[trigger] has_run(upsert_runs_all(rows, docs), id) <==> has_run(rows, id)
                || doc_has_run(docs, id) by {
            if doc_has_run(docs, id) {
                let i = choose|i: int| 0 <= i < docs.len() && docs[i].id == id;
                assert(false);
            }
        }
    } else {
        lemma_upsert_runs_all_props(rows, docs.drop_last());
        let mid = upsert_runs_all(rows, docs.drop_last());
        lemma_upsert_run_ids(mid, docs.last());
        assert forall|id: Seq<char>|
            #[trigger] has_run(upsert_runs_all(rows, docs), id) <==> has_run(rows, id)
                || doc_has_run(docs, id) by {
            assert(has_run(upsert_runs_all(rows, docs), id) <==> has_run(mid, id) || id
                == docs.last().id);
            if doc_has_run(docs.drop_last(), id) {
                let i = choose|i: int|
                    0 <= i < docs.drop_last().len() && docs.drop_last()[i].id == id;
                assert(docs[i].id == id);
            }
            if id == docs.last().id {
                assert(docs[docs.len() - 1].id == id);
            }
            if doc_has_run(docs, id) && id != docs.last().id {
                let i = choose|i: int| 0 <= i < docs.len() && docs[i].id == id;
                assert(i < docs.len() - 1);
                assert(docs.drop_last()[i].id == id);
            }
        }
    }
}

/// The case rows of a duplicate-free document are ordered per suite, and
/// each names a suite of the document.
proof fn lemma_doc_case_rows_props(docs: Seq<TestSuiteV>)
    requires
        doc_suite_ids_distinct(docs),
        forall|i: int| 0 <= i < docs.len() ==> (#[trigger] docs[i]).test_cases.len() <= i64::MAX,
    ensures
        cases_ordered(doc_case_rows(docs)),
        forall|k: int| #![trigger doc_case_rows(docs)[k]]
            0 <= k < doc_case_rows(docs).len() ==> exists|m: int| #![trigger docs[m]]
                0 <= m < docs.len() && doc_case_rows(docs)[k].test_suite_id == docs[m].id,
    decreases docs.len(),
{
    if docs.len() > 0 {
        assert forall|i: int, j: int| 0 <= i < j < docs.drop_last().len() implies (
        #[trigger] docs.drop_last()[i]).id != (#[trigger] docs.drop_last()[j]).id by {
            assert(docs[i].id != docs[j].id);
        }
        assert forall|i: int| 0 <= i < docs.drop_last().len() implies (
        #[trigger] docs.drop_last()[i]).test_cases.len() <= i64::MAX by {
            assert(docs[i].test_cases.len() <= i64::MAX);
        }
        lemma_doc_case_rows_props(docs.drop_last());
        let rest = doc_case_rows(docs.drop_last());
        let block = case_rows_of(docs.last());
        let out = doc_case_rows(docs);
        assert forall|k: int| #![trigger out[k]] 0 <= k < out.len() implies exists|m: int|
            #![trigger docs[m]]
            0 <= m < docs.len() && out[k].test_suite_id == docs[m].id by {
            if k < rest.len() {
                assert(out[k] == rest[k]);
                let m = choose|m: int| #![trigger docs.drop_last()[m]]
                    0 <= m < docs.drop_last().len() && rest[k].test_suite_id == docs.drop_last()[
                m].id;
                assert(out[k].test_suite_id == docs[m].id);
            } else {
                assert(out[k] == block[k - rest.len()]);
                assert(out[k].test_suite_id == docs[docs.len() - 1].id);
            }
        }
        assert forall|i: int, j: int|
            0 <= i < j < out.len() && (#[trigger] out[i]).test_suite_id == (
            #[trigger] out[j]).test_suite_id implies out[i].sort_order < out[j].sort_order by {
            if j < rest.len() {
                assert(out[i] == rest[i] && out[j] == rest[j]);
            } else if i >= rest.len() {
                assert(out[i] == block[i - rest.len()] && out[j] == block[j - rest.len()]);
                assert(0 <= i - rest.len() < j - rest.len() <= i64::MAX);
                assert(block[i - rest.len()].sort_order == (i - rest.len()) as i64);
                assert(block[j - rest.len()].sort_order == (j - rest.len()) as i64);
            } else {
                assert(out[i] == rest[i] && out[j] == block[j - rest.len()]);
                let m = choose|m: int| #![trigger docs.drop_last()[m]]
                    0 <= m < docs.drop_last().len() && rest[i].test_suite_id == docs.drop_last()[
                m].id;
                assert(docs[m].id != docs[docs.len() - 1].id);
                assert(out[j].test_suite_id == docs[docs.len() - 1].id);
                assert(false);
            }
        }
    }
}

/// Each result row of a document names a run of the document.
pub proof fn lemma_doc_result_rows_member(docs: Seq<RunResultV>)
    ensures
        forall|k: int| #![trigger doc_result_rows(docs)[k]]
            0 <= k < doc_result_rows(docs).len() ==> exists|m: int| #![trigger docs[m]]
                0 <= m < docs.len() && doc_result_rows(docs)[k].run_id == docs[m].id,
    decreases docs.len(),
{
    if docs.len() > 0 {
        lemma_doc_result_rows_member(docs.drop_last());
        let rest = doc_result_rows(docs.drop_last());
        let block = result_rows_of(docs.last());
        let out = doc_result_rows(docs);
        assert forall|k: int| #![trigger out[k]] 0 <= k < out.len() implies exists|m: int|
            #![trigger docs[m]]
            0 <= m < docs.len() && out[k].run_id == docs[m].id by {
            if k < rest.len() {
                assert(out[k] == rest[k]);
                let m = choose|m: int| #![trigger docs.drop_last()[m]]
                    0 <= m < docs.drop_last().len() && rest[k].run_id == docs.drop_last()[m].id;
                assert(out[k].run_id == docs[m].id);
            } else {
                assert(out[k] == block[k - rest.len()]);
                assert(out[k].run_id == docs[docs.len() - 1].id);
            }
        }
    }
}

/// A successful snapshot write leaves a well-formed store.
#[verifier::rlimit(60)]
proof fn lemma_write_snapshot_wf(pre: StoreV, doc: BenchmakerDbV)
    requires
        pre.wf(),
        write_snapshot_ok(doc),
        forall|i: int|
            0 <= i < doc.test_suites.len() ==> (#[trigger] doc.test_suites[i]).test_cases.len()
                <= i64::MAX,
    ensures
        (StoreV {
            suites: upsert_suites_all(keep_doc_suites(pre.suites, doc.test_suites), doc.test_suites),
            cases: doc_case_rows(doc.test_suites),
            runs: upsert_runs_all(keep_doc_runs(pre.runs, doc.runs), doc.runs),
            results: doc_result_rows(doc.runs),
            app_state: Some(
                AppStateV {
                    active_test_suite_id: doc.active_test_suite_id,
                    current_run_id: doc.current_run_id,
                },
            ),
            ..pre
        }).wf(),
{
    let suites2 = upsert_suites_all(keep_doc_suites(pre.suites, doc.test_suites), doc.test_suites);
    let cases2 = doc_case_rows(doc.test_suites);
    let runs2 = upsert_runs_all(keep_doc_runs(pre.runs, doc.runs), doc.runs);
    let results2 = doc_result_rows(doc.runs);
    lemma_keep_doc_suites_facts(pre.suites, doc.test_suites);
    lemma_keep_doc_runs_facts(pre.runs, doc.runs);
    lemma_upsert_suites_all_props(keep_doc_suites(pre.suites, doc.test_suites), doc.test_suites);
    lemma_upsert_runs_all_props(keep_doc_runs(pre.runs, doc.runs), doc.runs);
    lemma_doc_case_rows_props(doc.test_suites);
    lemma_doc_result_rows_member(doc.runs);
    assert forall|k: int| 0 <= k < cases2.len() implies has_suite(
        suites2,
        (#[trigger] cases2[k]).test_suite_id,
    ) by {
        let m = choose|m: int| #![trigger doc.test_suites[m]]
            0 <= m < doc.test_suites.len() && cases2[k].test_suite_id == doc.test_suites[m].id;
        assert(doc_has_suite(doc.test_suites, cases2[k].test_suite_id));
        assert(has_suite(suites2, cases2[k].test_suite_id));
    }
    assert forall|k: int| 0 <= k < results2.len() implies has_run(
        runs2,
        (#[trigger] results2[k]).run_id,
    ) by {
        let m = choose|m: int| #![trigger doc.runs[m]]
            0 <= m < doc.runs.len() && results2[k].run_id == doc.runs[m].id;
        assert(doc_has_run(doc.runs, results2[k].run_id));
        assert(has_run(runs2, results2[k].run_id));
    }
}


// ------------------------------------------------------------------
// Well-formedness of the migration.
// ------------------------------------------------------------------

/// Re-inserting a case list keeps the case table well formed, when every
/// stored row of the suite was evicted first.
proof fn lemma_legacy_put_cases_props(cases: Seq<CaseRowV>, list: Seq<TestCaseV>, sid: Seq<char>)
    requires
        cases_distinct(cases),
        cases_ordered(cases),
        forall|k: int| 0 <= k < cases.len() ==> (#[trigger] cases[k]).test_suite_id != sid,
        list.len() <= i64::MAX,
    ensures
        cases_distinct(legacy_put_cases(cases, list, sid)),
        cases_ordered(legacy_put_cases(cases, list, sid)),
        forall|k: int| #![trigger legacy_put_cases(cases, list, sid)[k]]
            0 <= k < legacy_put_cases(cases, list, sid).len() ==> (legacy_put_cases(
                cases,
                list,
                sid,
            )[k].test_suite_id == sid && 0 <= legacy_put_cases(cases, list, sid)[k].sort_order
                < list.len()) || exists|i: int| #![trigger cases[i]]
                0 <= i < cases.len() && cases[i] == legacy_put_cases(cases, list, sid)[k],
    decreases list.len(),
{
    if list.len() > 0 {
        lemma_legacy_put_cases_props(cases, list.drop_last(), sid);
        let prev = legacy_put_cases(cases, list.drop_last(), sid);
        let c = list.last();
        let mid = remove_case(prev, c.id);
        let row = case_row_at(c, sid, (list.len() - 1) as i64);
        let out = mid.push(row);
        lemma_remove_case_pred(prev, c.id);
        lemma_remove_case_member(prev, c.id);
        lemma_remove_case_distinct(prev, c.id);
        lemma_remove_case_ordered(prev, c.id);
        // carry the bound / membership fact through the removal
        assert forall|k: int| #![trigger mid[k]] 0 <= k < mid.len() implies (mid[k].test_suite_id
            == sid && 0 <= mid[k].sort_order < list.len() - 1) || exists|i: int|
            #![trigger cases[i]]
            0 <= i < cases.len() && cases[i] == mid[k] by {
            let p = choose|p: int| #![trigger prev[p]] 0 <= p < prev.len() && prev[p] == mid[k];
        }
        // distinctness: the evicted id is gone, the new row carries it
        assert forall|i: int, j: int| 0 <= i < j < out.len() implies (#[trigger] out[i]).id != (
        #[trigger] out[j]).id by {
            if j < mid.len() {
                assert(out[i] == mid[i] && out[j] == mid[j]);
            } else {
                assert(out[i] == mid[i] && out[j] == row);
                assert(mid[i].id != c.id);
            }
        }
        // ordering: older rows of the suite keep positions below the new one
        assert forall|i: int, j: int|
            0 <= i < j < out.len() && (#[trigger] out[i]).test_suite_id == (
            #[trigger] out[j]).test_suite_id implies out[i].sort_order < out[j].sort_order by {
            if j < mid.len() {
                assert(out[i] == mid[i] && out[j] == mid[j]);
            } else {
                assert(out[i] == mid[i] && out[j] == row);
                if mid[i].test_suite_id == sid {
                    if exists|p: int|
                        #![trigger cases[p]]
                        0 <= p < cases.len() && cases[p] == mid[i] {
                        let p = choose|p: int| #![trigger cases[p]]
                            0 <= p < cases.len() && cases[p] == mid[i];
                        assert(cases[p].test_suite_id != sid);
                        assert(false);
                    }
                    assert(0 <= mid[i].sort_order < list.len() - 1);
                }
            }
        }
        // the combined membership/bound fact for the result
        assert forall|k: int| #![trigger out[k]] 0 <= k < out.len() implies (out[k].test_suite_id
            == sid && 0 <= out[k].sort_order < list.len()) || exists|i: int| #![trigger cases[i]]
            0 <= i < cases.len() && cases[i] == out[k] by {
            if k < mid.len() {
                assert(out[k] == mid[k]);
            } else {
                assert(out[k] == row);
            }
        }
    }
}

/// One insert-or-replace of a suite row keeps ids unique.
proof fn lemma_replace_suite_step_distinct(prev: Seq<SuiteRowV>, d: TestSuiteV)
    requires
        suites_distinct(prev),
    ensures
        suites_distinct(remove_suite(prev, d.id).push(new_suite_row(d))),
{
    let mid = remove_suite(prev, d.id);
    let out = mid.push(new_suite_row(d));
    lemma_remove_suite_pred(prev, d.id);
    lemma_remove_suite_member(prev, d.id);
    lemma_remove_suite_distinct(prev, d.id);
    assert forall|i: int, j: int| 0 <= i < j < out.len() implies (#[trigger] out[i]).id != (
    #[trigger] out[j]).id by {
        if j < mid.len() {
            assert(out[i] == mid[i] && out[j] == mid[j]);
        } else {
            assert(out[i] == mid[i]);
            assert(mid[i].id != d.id);
        }
    }
}

/// After one insert-or-replace of a suite row, every stored id and the new
/// id are present.
proof fn lemma_replace_suite_step_has(prev: Seq<SuiteRowV>, d: TestSuiteV)
    ensures
        forall|id: Seq<char>|
            has_suite(prev, id) || id == d.id ==> #[trigger] has_suite(
                remove_suite(prev, d.id).push(new_suite_row(d)),
                id,
            ),
{
    let mid = remove_suite(prev, d.id);
    let out = mid.push(new_suite_row(d));
    lemma_remove_suite_retain(prev, d.id);
    assert forall|id: Seq<char>|
        has_suite(prev, id) || id == d.id implies #[trigger] has_suite(out, id) by {
        if id == d.id {
            assert(out[out.len() - 1].id == id);
        } else {
            let p = choose|p: int| #![trigger prev[p]] 0 <= p < prev.len() && prev[p].id == id;
            if prev[p].id != d.id {
                let k = choose|k: int| #![trigger mid[k]] 0 <= k < mid.len() && mid[k] == prev[p];
                assert(out[k].id == id);
            }
        }
    }
}

/// Re-inserting the legacy suites keeps suite ids unique, and afterwards
/// every previously stored id and every payload id is present.
proof fn lemma_legacy_suites_props(suites: Seq<SuiteRowV>, docs: Seq<TestSuiteV>)
    requires
        suites_distinct(suites),
    ensures
        suites_distinct(legacy_suites(suites, docs)),
        forall|id: Seq<char>|
            has_suite(suites, id) || doc_has_suite(docs, id) ==> #[trigger] has_suite(
                legacy_suites(suites, docs),
                id,
            ),
    decreases docs.len(),
{
    if docs.len() > 0 {
        lemma_legacy_suites_props(suites, docs.drop_last());
        let prev = legacy_suites(suites, docs.drop_last());
        let d = docs.last();
        lemma_replace_suite_step_distinct(prev, d);
        lemma_replace_suite_step_has(prev, d);
        let out = legacy_suites(suites, docs);
        assert forall|id: Seq<char>|
            has_suite(suites, id) || doc_has_suite(docs, id) implies #[trigger] has_suite(
            out,
            id,
        ) by {
            if id == d.id {
                assert(has_suite(out, id));
            } else {
                if doc_has_suite(docs, id) {
                    let w = choose|w: int| 0 <= w < docs.len() && docs[w].id == id;
                    assert(w < docs.len() - 1);
                    assert(docs.drop_last()[w].id == id);
                }
                assert(has_suite(prev, id));
            }
        }
    }
}

/// Re-inserting the legacy suites keeps the case table well formed, and
/// every surviving case row either was stored before or names a suite of
/// the payload.
proof fn lemma_legacy_cases_props(cases: Seq<CaseRowV>, docs: Seq<TestSuiteV>)
    requires
        cases_distinct(cases),
        cases_ordered(cases),
        forall|i: int| 0 <= i < docs.len() ==> (#[trigger] docs[i]).test_cases.len() <= i64::MAX,
    ensures
        cases_distinct(legacy_cases(cases, docs)),
        cases_ordered(legacy_cases(cases, docs)),
        forall|k: int| #![trigger legacy_cases(cases, docs)[k]]
            0 <= k < legacy_cases(cases, docs).len() ==> (exists|i: int| #![trigger cases[i]]
                0 <= i < cases.len() && cases[i] == legacy_cases(cases, docs)[k]) || exists|m: int|
                #![trigger docs[m]]
                0 <= m < docs.len() && legacy_cases(cases, docs)[k].test_suite_id == docs[m].id,
    decreases docs.len(),
{
    if docs.len() > 0 {
        assert forall|i: int| 0 <= i < docs.drop_last().len() implies (
        #[trigger] docs.drop_last()[i]).test_cases.len() <= i64::MAX by {
            assert(docs[i].test_cases.len() <= i64::MAX);
        }
        lemma_legacy_cases_props(cases, docs.drop_last());
        let prev = legacy_cases(cases, docs.drop_last());
        let d = docs.last();
        assert(docs[docs.len() - 1].test_cases.len() <= i64::MAX);
        let base = remove_cases_of(prev, d.id);
        let out = legacy_cases(cases, docs);
        lemma_remove_cases_of_pred(prev, d.id);
        lemma_remove_cases_of_member(prev, d.id);
        lemma_remove_cases_of_distinct(prev, d.id);
        lemma_remove_cases_of_ordered(prev, d.id);
        lemma_legacy_put_cases_props(base, d.test_cases, d.id);
        assert forall|k: int| #![trigger out[k]] 0 <= k < out.len() implies (exists|i: int|
            #![trigger cases[i]]
            0 <= i < cases.len() && cases[i] == out[k]) || exists|m: int| #![trigger docs[m]]
            0 <= m < docs.len() && out[k].test_suite_id == docs[m].id by {
            if out[k].test_suite_id == d.id && 0 <= out[k].sort_order < d.test_cases.len() {
                assert(docs[docs.len() - 1].id == out[k].test_suite_id);
            } else {
                let b = choose|b: int| #![trigger base[b]]
                    0 <= b < base.len() && base[b] == out[k];
                let p = choose|p: int| #![trigger prev[p]]
                    0 <= p < prev.len() && prev[p] == base[b];
                if exists|i: int| #![trigger cases[i]] 0 <= i < cases.len() && cases[i] == prev[p] {
                } else {
                    let m = choose|m: int| #![trigger docs.drop_last()[m]]
                        0 <= m < docs.drop_last().len() && prev[p].test_suite_id
                            == docs.drop_last()[m].id;
                    assert(docs[m].id == out[k].test_suite_id);
                }
            }
        }
    }
}

/// One insert-or-replace of a run row keeps ids unique.
proof fn lemma_replace_run_step_distinct(prev: Seq<RunRowV>, d: RunResultV)
    requires
        runs_distinct(prev),
    ensures
        runs_distinct(remove_run(prev, d.id).push(new_run_row(d))),
{
    let mid = remove_run(prev, d.id);
    let out = mid.push(new_run_row(d));
    lemma_remove_run_pred(prev, d.id);
    lemma_remove_run_member(prev, d.id);
    lemma_remove_run_distinct(prev, d.id);
    assert forall|i: int, j: int| 0 <= i < j < out.len() implies (#[trigger] out[i]).id != (
    #[trigger] out[j]).id by {
        if j < mid.len() {
            assert(out[i] == mid[i] && out[j] == mid[j]);
        } else {
            assert(out[i] == mid[i]);
            assert(mid[i].id != d.id);
        }
    }
}

/// After one insert-or-replace of a run row, every stored id and the new
/// id are present.
proof fn lemma_replace_run_step_has(prev: Seq<RunRowV>, d: RunResultV)
    ensures
        forall|id: Seq<char>|
            has_run(prev, id) || id == d.id ==> #[trigger] has_run(
                remove_run(prev, d.id).push(new_run_row(d)),
                id,
            ),
{
    let mid = remove_run(prev, d.id);
    let out = mid.push(new_run_row(d));
    lemma_remove_run_retain(prev, d.id);
    assert forall|id: Seq<char>| has_run(prev, id) || id == d.id implies #[trigger] has_run(
        out,
        id,
    ) by {
        if id == d.id {
            assert(out[out.len() - 1].id == id);
        } else {
            let p = choose|p: int| #![trigger prev[p]] 0 <= p < prev.len() && prev[p].id == id;
            if prev[p].id != d.id {
                let k = choose|k: int| #![trigger mid[k]] 0 <= k < mid.len() && mid[k] == prev[p];
                assert(out[k].id == id);
            }
        }
    }
}

/// Re-inserting the legacy runs keeps run ids unique, and afterwards every
/// previously stored id and every payload id is present.
proof fn lemma_legacy_runs_props(runs: Seq<RunRowV>, docs: Seq<RunResultV>)
    requires
        runs_distinct(runs),
    ensures
        runs_distinct(legacy_runs(runs, docs)),
        forall|id: Seq<char>|
            has_run(runs, id) || doc_has_run(docs, id) ==> #[trigger] has_run(
                legacy_runs(runs, docs),
                id,
            ),
    decreases docs.len(),
{
    if docs.len() > 0 {
        lemma_legacy_runs_props(runs, docs.drop_last());
        let prev = legacy_runs(runs, docs.drop_last());
        let d = docs.last();
        lemma_replace_run_step_distinct(prev, d);
        lemma_replace_run_step_has(prev, d);
        let out = legacy_runs(runs, docs);
        assert forall|id: Seq<char>|
            has_run(runs, id) || doc_has_run(docs, id) implies #[trigger] has_run(out, id) by {
            if id == d.id {
                assert(has_run(out, id));
            } else {
                if doc_has_run(docs, id) {
                    let w = choose|w: int| 0 <= w < docs.len() && docs[w].id == id;
                    assert(w < docs.len() - 1);
                    assert(docs.drop_last()[w].id == id);
                }
                assert(has_run(prev, id));
            }
        }
    }
}

/// Every surviving result row either was stored before or names a run of
/// the payload.
proof fn lemma_legacy_results_props(results: Seq<ResultRowV>, docs: Seq<RunResultV>)
    ensures
        forall|k: int| #![trigger legacy_results(results, docs)[k]]
            0 <= k < legacy_results(results, docs).len() ==> (exists|i: int|
                #![trigger results[i]]
                0 <= i < results.len() && results[i] == legacy_results(results, docs)[k]) || exists|
                m: int,
            |
                #![trigger docs[m]]
                0 <= m < docs.len() && legacy_results(results, docs)[k].run_id == docs[m].id,
    decreases docs.len(),
{
    if docs.len() > 0 {
        lemma_legacy_results_props(results, docs.drop_last());
        let prev = legacy_results(results, docs.drop_last());
        let d = docs.last();
        let kept = remove_results_of(prev, d.id);
        let out = legacy_results(results, docs);
        lemma_remove_results_of_member(prev, d.id);
        assert forall|k: int| #![trigger out[k]] 0 <= k < out.len() implies (exists|i: int|
            #![trigger results[i]]
            0 <= i < results.len() && results[i] == out[k]) || exists|m: int| #![trigger docs[m]]
            0 <= m < docs.len() && out[k].run_id == docs[m].id by {
            if k < kept.len() {
                assert(out[k] == kept[k]);
                let p = choose|p: int| #![trigger prev[p]]
                    0 <= p < prev.len() && prev[p] == kept[k];
                if exists|i: int|
                    #![trigger results[i]]
                    0 <= i < results.len() && results[i] == prev[p] {
                } else {
                    let m = choose|m: int| #![trigger docs.drop_last()[m]]
                        0 <= m < docs.drop_last().len() && prev[p].run_id == docs.drop_last()[
                    m].id;
                    assert(docs[m].id == out[k].run_id);
                }
            } else {
                assert(out[k] == result_rows_of(d)[k - kept.len()]);
                assert(out[k].run_id == d.id);
                assert(docs[docs.len() - 1].id == out[k].run_id);
            }
        }
    }
}

/// A successful migration leaves a well-formed store.
proof fn lemma_migrate_wf(pre: StoreV)
    requires
        pre.wf(),
        legacy_doc_fits(pre),
    ensures
        migrate_result(pre).wf(),
{
    if stored_version(pre) < CURRENT_SCHEMA_VERSION {
        match pre.legacy {
            Some(Some(LegacySnapshotV::Decoded(db))) => {
                lemma_legacy_suites_props(pre.suites, db.test_suites);
                lemma_legacy_cases_props(pre.cases, db.test_suites);
                lemma_legacy_runs_props(pre.runs, db.runs);
                lemma_legacy_results_props(pre.results, db.runs);
                let s2 = legacy_suites(pre.suites, db.test_suites);
                let c2 = legacy_cases(pre.cases, db.test_suites);
                let r2 = legacy_runs(pre.runs, db.runs);
                let res2 = legacy_results(pre.results, db.runs);
                assert forall|k: int| 0 <= k < c2.len() implies has_suite(
                    s2,
                    (#[trigger] c2[k]).test_suite_id,
                ) by {
                    if exists|i: int|
                        #![trigger pre.cases[i]]
                        0 <= i < pre.cases.len() && pre.cases[i] == c2[k] {
                        let i = choose|i: int| #![trigger pre.cases[i]]
                            0 <= i < pre.cases.len() && pre.cases[i] == c2[k];
                        assert(has_suite(pre.suites, c2[k].test_suite_id));
                    } else {
                        let m = choose|m: int| #![trigger db.test_suites[m]]
                            0 <= m < db.test_suites.len() && c2[k].test_suite_id
                                == db.test_suites[m].id;
                        assert(doc_has_suite(db.test_suites, c2[k].test_suite_id));
                    }
                }
                assert forall|k: int| 0 <= k < res2.len() implies has_run(
                    r2,
                    (#[trigger] res2[k]).run_id,
                ) by {
                    if exists|i: int|
                        #![trigger pre.results[i]]
                        0 <= i < pre.results.len() && pre.results[i] == res2[k] {
                        let i = choose|i: int| #![trigger pre.results[i]]
                            0 <= i < pre.results.len() && pre.results[i] == res2[k];
                        assert(has_run(pre.runs, res2[k].run_id));
                    } else {
                        let m = choose|m: int| #![trigger db.runs[m]]
                            0 <= m < db.runs.len() && res2[k].run_id == db.runs[m].id;
                        assert(doc_has_run(db.runs, res2[k].run_id));
                    }
                }
            },
            _ => {},
        }
    }
}

} // verus!
