//! Store-level laws: facts that relate several operations, proved once and
//! for all over the store's mathematical image.

use vstd::prelude::*;

use crate::model::BenchmakerDbV;
use crate::model::TestCaseV;
use crate::model::TestSuiteV;
use crate::rows::CaseRowV;
use crate::rows::SuiteRowV;
use crate::store::StoreV;
use crate::store::case_of_row;
use crate::store::case_row_at;
use crate::store::case_rows_of;
use crate::store::cases_for;
use crate::store::doc_case_rows;
use crate::store::doc_has_suite;
use crate::store::has_suite;
use crate::store::keep_doc_suites;
use crate::store::lemma_remove_cases_of_pred;
use crate::store::lemma_remove_results_of_pred;
use crate::store::lemma_suite_pos_facts;
use crate::store::lemma_upsert_suite_ids;
use crate::store::migrate_ok;
use crate::store::migrate_result;
use crate::store::remove_cases_of;
use crate::store::remove_results_of;
use crate::store::save_suite_ok;
use crate::store::sort_suites;
use crate::store::suite_insert_pos;
use crate::store::suites_view;
use crate::store::upsert_suite;
use crate::store::upsert_suites_all;
use crate::store::doc_has_run;
use crate::store::doc_result_rows;
use crate::store::doc_run_ids_distinct;
use crate::store::doc_suite_ids_distinct;
use crate::store::cases_distinct;
use crate::store::has_run;
use crate::store::keep_doc_runs;
use crate::store::lemma_run_pos_facts;
use crate::store::merge_run_row;
use crate::store::merge_suite_row;
use crate::store::result_of_row;
use crate::store::result_row_of;
use crate::store::result_rows_of;
use crate::store::results_for;
use crate::store::run_entity;
use crate::store::run_insert_pos;
use crate::store::runs_distinct;
use crate::store::runs_view;
use crate::store::sort_runs;
use crate::store::suite_entity;
use crate::store::suites_distinct;
use crate::store::upsert_run;
use crate::store::upsert_runs_all;
use crate::store::write_snapshot_ok;
use crate::model::AppStateV;
use crate::model::RunResultV;
use crate::model::TestCaseResultV;
use crate::rows::ResultRowV;
use crate::rows::RunRowV;

verus! {

/// Migration is idempotent: after a successful migration a second one
/// succeeds and moves nothing — same tables, same recorded version.
pub proof fn lemma_migration_idempotent(st: StoreV)
    ensures
        migrate_ok(migrate_result(st)),
        migrate_result(migrate_result(st)) == migrate_result(st),
{
}

/// Deleting a suite removes all of its case rows: none survives that still
/// names the deleted suite.
pub proof fn lemma_delete_suite_no_orphans(st: StoreV, id: Seq<char>)
    ensures
        forall|k: int|
            0 <= k < remove_cases_of(st.cases, id).len() ==> (#[trigger] remove_cases_of(
                st.cases,
                id,
            )[k]).test_suite_id != id,
{
    lemma_remove_cases_of_pred(st.cases, id);
}

/// Deleting a run removes all of its result rows: none survives that still
/// names the deleted run.
pub proof fn lemma_delete_run_no_orphans(st: StoreV, id: Seq<char>)
    ensures
        forall|k: int|
            0 <= k < remove_results_of(st.results, id).len() ==> (#[trigger] remove_results_of(
                st.results,
                id,
            )[k]).run_id != id,
{
    lemma_remove_results_of_pred(st.results, id);
}

/// A snapshot write whose suite list is empty leaves zero suites and zero
/// case rows, whatever was stored before: bulk replace, not merge.
pub proof fn lemma_snapshot_write_empty(st: StoreV, doc: BenchmakerDbV)
    requires
        doc.test_suites.len() == 0,
    ensures
        upsert_suites_all(keep_doc_suites(st.suites, doc.test_suites), doc.test_suites).len()
            == 0,
        doc_case_rows(doc.test_suites).len() == 0,
        suites_view(
            StoreV {
                suites: upsert_suites_all(
                    keep_doc_suites(st.suites, doc.test_suites),
                    doc.test_suites,
                ),
                cases: doc_case_rows(doc.test_suites),
                ..st
            },
        ).len() == 0,
{
    lemma_keep_doc_suites_none(st.suites, doc.test_suites);
    lemma_sort_suites_len(
        upsert_suites_all(keep_doc_suites(st.suites, doc.test_suites), doc.test_suites),
    );
}

/// With an empty document, reconciliation keeps no suite row.
proof fn lemma_keep_doc_suites_none(rows: Seq<SuiteRowV>, docs: Seq<TestSuiteV>)
    requires
        docs.len() == 0,
    ensures
        keep_doc_suites(rows, docs).len() == 0,
    decreases rows.len(),
{
    if rows.len() > 0 {
        lemma_keep_doc_suites_none(rows.drop_last(), docs);
        if doc_has_suite(docs, rows.last().id) {
            let i = choose|i: int| 0 <= i < docs.len() && docs[i].id == rows.last().id;
            assert(false);
        }
    }
}

/// Sorting keeps the length.
proof fn lemma_sort_suites_len(rows: Seq<SuiteRowV>)
    ensures
        sort_suites(rows).len() == rows.len(),
    decreases rows.len(),
{
    if rows.len() > 0 {
        lemma_sort_suites_len(rows.drop_last());
        lemma_suite_pos_facts(sort_suites(rows.drop_last()), rows.last().updated_at);
    }
}

/// Every table row appears somewhere in the sorted listing.
pub proof fn lemma_sort_suites_member(rows: Seq<SuiteRowV>)
    ensures
        forall|i: int| #![trigger rows[i]]
            0 <= i < rows.len() ==> exists|k: int| #![trigger sort_suites(rows)[k]]
                0 <= k < sort_suites(rows).len() && sort_suites(rows)[k] == rows[i],
    decreases rows.len(),
{
    if rows.len() > 0 {
        lemma_sort_suites_member(rows.drop_last());
        let prev = sort_suites(rows.drop_last());
        let p = suite_insert_pos(prev, rows.last().updated_at);
        lemma_suite_pos_facts(prev, rows.last().updated_at);
        let out = sort_suites(rows);
        assert forall|i: int| #![trigger rows[i]] 0 <= i < rows.len() implies exists|k: int|
            #![trigger out[k]]
            0 <= k < out.len() && out[k] == rows[i] by {
            if i < rows.len() - 1 {
                assert(rows.drop_last()[i] == rows[i]);
                let k = choose|k: int| #![trigger prev[k]]
                    0 <= k < prev.len() && prev[k] == rows.drop_last()[i];
                if k < p {
                    assert(out[k] == prev[k]);
                } else {
                    assert(out[k + 1] == prev[k]);
                }
            } else {
                assert(out[p] == rows[i]);
            }
        }
    }
}

/// Attaching the case rows of a table where the suite does not occur yields
/// nothing.
pub proof fn lemma_cases_for_absent(rows: Seq<CaseRowV>, sid: Seq<char>)
    requires
        forall|k: int| 0 <= k < rows.len() ==> (#[trigger] rows[k]).test_suite_id != sid,
    ensures
        cases_for(rows, sid).len() == 0,
    decreases rows.len(),
{
    if rows.len() > 0 {
        assert forall|k: int| 0 <= k < rows.drop_last().len() implies (
        #[trigger] rows.drop_last()[k]).test_suite_id != sid by {
            assert(rows[k].test_suite_id != sid);
        }
        lemma_cases_for_absent(rows.drop_last(), sid);
    }
}

/// Attaching cases distributes over concatenation of the case table.
pub proof fn lemma_cases_for_concat(a: Seq<CaseRowV>, b: Seq<CaseRowV>, sid: Seq<char>)
    ensures
        cases_for(a + b, sid) == cases_for(a, sid) + cases_for(b, sid),
    decreases b.len(),
{
    if b.len() == 0 {
        assert(a + b =~= a);
        assert(cases_for(a, sid) + cases_for(b, sid) =~= cases_for(a, sid));
    } else {
        lemma_cases_for_concat(a, b.drop_last(), sid);
        assert((a + b).drop_last() =~= a + b.drop_last());
        assert((a + b).last() == b.last());
        if b.last().test_suite_id == sid {
            assert(cases_for(a, sid) + cases_for(b, sid) =~= (cases_for(a, sid) + cases_for(
                b.drop_last(),
                sid,
            )).push(case_of_row(b.last())));
        }
    }
}

/// The rows a full-suite save writes read back as exactly the supplied
/// list, prefix by prefix.
proof fn lemma_cases_for_fresh_prefix(s: TestSuiteV, n: int)
    requires
        0 <= n <= s.test_cases.len(),
    ensures
        cases_for(case_rows_of(s).take(n), s.id) == s.test_cases.take(n),
    decreases n,
{
    if n > 0 {
        lemma_cases_for_fresh_prefix(s, n - 1);
        let rows = case_rows_of(s);
        assert(rows.take(n).drop_last() =~= rows.take(n - 1));
        assert(rows.take(n).last() == rows[n - 1]);
        assert(rows[n - 1] == case_row_at(s.test_cases[n - 1], s.id, (n - 1) as i64));
        assert(case_of_row(case_row_at(s.test_cases[n - 1], s.id, (n - 1) as i64)) =~= s
            .test_cases[n - 1]);
        assert(s.test_cases.take(n) =~= s.test_cases.take(n - 1).push(s.test_cases[n - 1]));
    } else {
        assert(case_rows_of(s).take(0) =~= Seq::<CaseRowV>::empty());
        assert(s.test_cases.take(0) =~= Seq::<TestCaseV>::empty());
    }
}

/// The rows a full-suite save writes read back as exactly the supplied
/// list.
pub proof fn lemma_cases_for_fresh(s: TestSuiteV)
    ensures
        cases_for(case_rows_of(s), s.id) == s.test_cases,
{
    lemma_cases_for_fresh_prefix(s, s.test_cases.len() as int);
    assert(case_rows_of(s).take(s.test_cases.len() as int) =~= case_rows_of(s));
    assert(s.test_cases.take(s.test_cases.len() as int) =~= s.test_cases);
}

/// Saving a suite and then listing the suites returns, for that suite,
/// exactly the supplied cases in their supplied order — whatever order its
/// rows had in storage before.
pub proof fn lemma_save_then_list(st: StoreV, s: TestSuiteV)
    requires
        st.wf(),
        save_suite_ok(st, s),
        s.test_cases.len() <= i64::MAX,
    ensures
        ({
            let post = StoreV {
                suites: upsert_suite(st.suites, s),
                cases: remove_cases_of(st.cases, s.id) + case_rows_of(s),
                ..st
            };
            exists|k: int|
                0 <= k < suites_view(post).len() && (#[trigger] suites_view(post)[k]).id == s.id
                    && suites_view(post)[k].test_cases == s.test_cases
        }),
{
    let post = StoreV {
        suites: upsert_suite(st.suites, s),
        cases: remove_cases_of(st.cases, s.id) + case_rows_of(s),
        ..st
    };
    lemma_upsert_suite_ids(st.suites, s);
    assert(has_suite(post.suites, s.id));
    let i = choose|i: int| 0 <= i < post.suites.len() && post.suites[i].id == s.id;
    lemma_sort_suites_member(post.suites);
    let k = choose|k: int| #![trigger sort_suites(post.suites)[k]]
        0 <= k < sort_suites(post.suites).len() && sort_suites(post.suites)[k] == post.suites[i];
    lemma_remove_cases_of_pred(st.cases, s.id);
    lemma_cases_for_absent(remove_cases_of(st.cases, s.id), s.id);
    lemma_cases_for_concat(remove_cases_of(st.cases, s.id), case_rows_of(s), s.id);
    lemma_cases_for_fresh(s);
    assert(cases_for(post.cases, s.id) =~= s.test_cases);
    assert(suites_view(post)[k].id == s.id);
    assert(suites_view(post)[k].test_cases == s.test_cases);
}


// ------------------------------------------------------------------
// Groundwork for the snapshot round trip.
// ------------------------------------------------------------------

/// Every row of the sorted suite listing comes from the table.
proof fn lemma_sort_suites_member_rev(rows: Seq<SuiteRowV>)
    ensures
        forall|k: int| #![trigger sort_suites(rows)[k]]
            0 <= k < sort_suites(rows).len() ==> exists|i: int| #![trigger rows[i]]
                0 <= i < rows.len() && rows[i] == sort_suites(rows)[k],
    decreases rows.len(),
{
    if rows.len() > 0 {
        lemma_sort_suites_member_rev(rows.drop_last());
        let prev = sort_suites(rows.drop_last());
        let p = suite_insert_pos(prev, rows.last().updated_at);
        lemma_suite_pos_facts(prev, rows.last().updated_at);
        let out = sort_suites(rows);
        assert forall|k: int| #![trigger out[k]] 0 <= k < out.len() implies exists|i: int|
            #![trigger rows[i]]
            0 <= i < rows.len() && rows[i] == out[k] by {
            if k == p {
                assert(rows[rows.len() - 1] == out[k]);
            } else {
                let k0 = if k < p {
                    k
                } else {
                    k - 1
                };
                assert(out[k] == prev[k0]);
                let i = choose|i: int| #![trigger rows.drop_last()[i]]
                    0 <= i < rows.drop_last().len() && rows.drop_last()[i] == prev[k0];
                assert(rows[i] == out[k]);
            }
        }
    }
}

/// Sorting the suite table keeps ids unique.
proof fn lemma_sort_suites_distinct(rows: Seq<SuiteRowV>)
    requires
        suites_distinct(rows),
    ensures
        suites_distinct(sort_suites(rows)),
    decreases rows.len(),
{
    if rows.len() > 0 {
        assert forall|i: int, j: int| 0 <= i < j < rows.drop_last().len() implies (
        #[trigger] rows.drop_last()[i]).id != (#[trigger] rows.drop_last()[j]).id by {
            assert(rows[i].id != rows[j].id);
        }
        lemma_sort_suites_distinct(rows.drop_last());
        lemma_sort_suites_member_rev(rows.drop_last());
        let prev = sort_suites(rows.drop_last());
        let p = suite_insert_pos(prev, rows.last().updated_at);
        lemma_suite_pos_facts(prev, rows.last().updated_at);
        let out = sort_suites(rows);
        assert forall|k: int| 0 <= k < prev.len() implies (#[trigger] prev[k]).id
            != rows.last().id by {
            let i = choose|i: int| #![trigger rows.drop_last()[i]]
                0 <= i < rows.drop_last().len() && rows.drop_last()[i] == prev[k];
            assert(rows[i].id != rows[rows.len() - 1].id);
        }
        assert forall|i: int, j: int| 0 <= i < j < out.len() implies (#[trigger] out[i]).id != (
        #[trigger] out[j]).id by {
            if i < p && j < p {
                assert(out[i] == prev[i] && out[j] == prev[j]);
            } else if i < p && j == p {
                assert(out[i] == prev[i]);
            } else if i < p && j > p {
                assert(out[i] == prev[i] && out[j] == prev[j - 1]);
            } else if i == p && j > p {
                assert(out[j] == prev[j - 1]);
            } else {
                assert(out[i] == prev[i - 1] && out[j] == prev[j - 1]);
            }
        }
    }
}

/// Every row of the sorted run listing comes from the table.
proof fn lemma_sort_runs_member_rev(rows: Seq<RunRowV>)
    ensures
        forall|k: int| #![trigger sort_runs(rows)[k]]
            0 <= k < sort_runs(rows).len() ==> exists|i: int| #![trigger rows[i]]
                0 <= i < rows.len() && rows[i] == sort_runs(rows)[k],
    decreases rows.len(),
{
    if rows.len() > 0 {
        lemma_sort_runs_member_rev(rows.drop_last());
        let prev = sort_runs(rows.drop_last());
        let p = run_insert_pos(prev, rows.last().started_at);
        lemma_run_pos_facts(prev, rows.last().started_at);
        let out = sort_runs(rows);
        assert forall|k: int| #![trigger out[k]] 0 <= k < out.len() implies exists|i: int|
            #![trigger rows[i]]
            0 <= i < rows.len() && rows[i] == out[k] by {
            if k == p {
                assert(rows[rows.len() - 1] == out[k]);
            } else {
                let k0 = if k < p {
                    k
                } else {
                    k - 1
                };
                assert(out[k] == prev[k0]);
                let i = choose|i: int| #![trigger rows.drop_last()[i]]
                    0 <= i < rows.drop_last().len() && rows.drop_last()[i] == prev[k0];
                assert(rows[i] == out[k]);
            }
        }
    }
}

/// Every table row appears somewhere in the sorted run listing.
proof fn lemma_sort_runs_member(rows: Seq<RunRowV>)
    ensures
        forall|i: int| #![trigger rows[i]]
            0 <= i < rows.len() ==> exists|k: int| #![trigger sort_runs(rows)[k]]
                0 <= k < sort_runs(rows).len() && sort_runs(rows)[k] == rows[i],
    decreases rows.len(),
{
    if rows.len() > 0 {
        lemma_sort_runs_member(rows.drop_last());
        let prev = sort_runs(rows.drop_last());
        let p = run_insert_pos(prev, rows.last().started_at);
        lemma_run_pos_facts(prev, rows.last().started_at);
        let out = sort_runs(rows);
        assert forall|i: int| #![trigger rows[i]] 0 <= i < rows.len() implies exists|k: int|
            #![trigger out[k]]
            0 <= k < out.len() && out[k] == rows[i] by {
            if i < rows.len() - 1 {
                assert(rows.drop_last()[i] == rows[i]);
                let k = choose|k: int| #![trigger prev[k]]
                    0 <= k < prev.len() && prev[k] == rows.drop_last()[i];
                if k < p {
                    assert(out[k] == prev[k]);
                } else {
                    assert(out[k + 1] == prev[k]);
                }
            } else {
                assert(out[p] == rows[i]);
            }
        }
    }
}

/// Sorting the run table keeps ids unique.
proof fn lemma_sort_runs_distinct(rows: Seq<RunRowV>)
    requires
        runs_distinct(rows),
    ensures
        runs_distinct(sort_runs(rows)),
    decreases rows.len(),
{
    if rows.len() > 0 {
        assert forall|i: int, j: int| 0 <= i < j < rows.drop_last().len() implies (
        #[trigger] rows.drop_last()[i]).id != (#[trigger] rows.drop_last()[j]).id by {
            assert(rows[i].id != rows[j].id);
        }
        lemma_sort_runs_distinct(rows.drop_last());
        lemma_sort_runs_member_rev(rows.drop_last());
        let prev = sort_runs(rows.drop_last());
        let p = run_insert_pos(prev, rows.last().started_at);
        lemma_run_pos_facts(prev, rows.last().started_at);
        let out = sort_runs(rows);
        assert forall|k: int| 0 <= k < prev.len() implies (#[trigger] prev[k]).id
            != rows.last().id by {
            let i = choose|i: int| #![trigger rows.drop_last()[i]]
                0 <= i < rows.drop_last().len() && rows.drop_last()[i] == prev[k];
            assert(rows[i].id != rows[rows.len() - 1].id);
        }
        assert forall|i: int, j: int| 0 <= i < j < out.len() implies (#[trigger] out[i]).id != (
        #[trigger] out[j]).id by {
            if i < p && j < p {
                assert(out[i] == prev[i] && out[j] == prev[j]);
            } else if i < p && j == p {
                assert(out[i] == prev[i]);
            } else if i < p && j > p {
                assert(out[i] == prev[i] && out[j] == prev[j - 1]);
            } else if i == p && j > p {
                assert(out[j] == prev[j - 1]);
            } else {
                assert(out[i] == prev[i - 1] && out[j] == prev[j - 1]);
            }
        }
    }
}

/// Reconciliation keeps every suite row whose id the document names — so
/// with a document naming them all, it keeps everything.
proof fn lemma_keep_doc_suites_all(rows: Seq<SuiteRowV>, docs: Seq<TestSuiteV>)
    requires
        forall|i: int|
            0 <= i < rows.len() ==> doc_has_suite(docs, (#[trigger] rows[i]).id),
    ensures
        keep_doc_suites(rows, docs) == rows,
    decreases rows.len(),
{
    if rows.len() > 0 {
        assert forall|i: int| 0 <= i < rows.drop_last().len() implies doc_has_suite(
            docs,
            (#[trigger] rows.drop_last()[i]).id,
        ) by {
            assert(doc_has_suite(docs, rows[i].id));
        }
        lemma_keep_doc_suites_all(rows.drop_last(), docs);
        assert(doc_has_suite(docs, rows[rows.len() - 1].id));
        assert(keep_doc_suites(rows, docs) =~= rows);
    }
}

/// Reconciliation keeps every run row whose id the document names.
proof fn lemma_keep_doc_runs_all(rows: Seq<RunRowV>, docs: Seq<RunResultV>)
    requires
        forall|i: int| 0 <= i < rows.len() ==> doc_has_run(docs, (#[trigger] rows[i]).id),
    ensures
        keep_doc_runs(rows, docs) == rows,
    decreases rows.len(),
{
    if rows.len() > 0 {
        assert forall|i: int| 0 <= i < rows.drop_last().len() implies doc_has_run(
            docs,
            (#[trigger] rows.drop_last()[i]).id,
        ) by {
            assert(doc_has_run(docs, rows[i].id));
        }
        lemma_keep_doc_runs_all(rows.drop_last(), docs);
        assert(doc_has_run(docs, rows[rows.len() - 1].id));
        assert(keep_doc_runs(rows, docs) =~= rows);
    }
}

/// Upserting a suite that matches its stored row exactly changes nothing.
proof fn lemma_upsert_suite_identity(rows: Seq<SuiteRowV>, s: TestSuiteV)
    requires
        suites_distinct(rows),
        has_suite(rows, s.id),
        forall|j: int|
            0 <= j < rows.len() && (#[trigger] rows[j]).id == s.id ==> merge_suite_row(
                rows[j],
                s,
            ) == rows[j],
    ensures
        upsert_suite(rows, s) == rows,
{
    assert(upsert_suite(rows, s) =~= rows);
}

/// Upserting, in order, document suites that each match their stored rows
/// exactly changes nothing.
proof fn lemma_upsert_suites_all_identity(rows: Seq<SuiteRowV>, docs: Seq<TestSuiteV>)
    requires
        suites_distinct(rows),
        forall|k: int|
            0 <= k < docs.len() ==> has_suite(rows, (#[trigger] docs[k]).id),
        forall|k: int, j: int|
            0 <= k < docs.len() && 0 <= j < rows.len() && (#[trigger] rows[j]).id == (
            #[trigger] docs[k]).id ==> merge_suite_row(rows[j], docs[k]) == rows[j],
    ensures
        upsert_suites_all(rows, docs) == rows,
    decreases docs.len(),
{
    if docs.len() > 0 {
        assert forall|k: int| 0 <= k < docs.drop_last().len() implies has_suite(
            rows,
            (#[trigger] docs.drop_last()[k]).id,
        ) by {
            assert(has_suite(rows, docs[k].id));
        }
        assert forall|k: int, j: int|
            0 <= k < docs.drop_last().len() && 0 <= j < rows.len() && (#[trigger] rows[j]).id == (
            #[trigger] docs.drop_last()[k]).id implies merge_suite_row(
            rows[j],
            docs.drop_last()[k],
        ) == rows[j] by {
            assert(merge_suite_row(rows[j], docs[k]) == rows[j]);
        }
        lemma_upsert_suites_all_identity(rows, docs.drop_last());
        assert(has_suite(rows, docs[docs.len() - 1].id));
        assert forall|j: int|
            0 <= j < rows.len() && (#[trigger] rows[j]).id == docs.last().id implies
            merge_suite_row(rows[j], docs.last()) == rows[j] by {
            assert(merge_suite_row(rows[j], docs[docs.len() - 1]) == rows[j]);
        }
        lemma_upsert_suite_identity(rows, docs.last());
    }
}

/// Upserting a run that matches its stored row exactly changes nothing.
proof fn lemma_upsert_run_identity(rows: Seq<RunRowV>, r: RunResultV)
    requires
        runs_distinct(rows),
        has_run(rows, r.id),
        forall|j: int|
            0 <= j < rows.len() && (#[trigger] rows[j]).id == r.id ==> merge_run_row(rows[j], r)
                == rows[j],
    ensures
        upsert_run(rows, r) == rows,
{
    assert(upsert_run(rows, r) =~= rows);
}

/// Upserting, in order, document runs that each match their stored rows
/// exactly changes nothing.
proof fn lemma_upsert_runs_all_identity(rows: Seq<RunRowV>, docs: Seq<RunResultV>)
    requires
        runs_distinct(rows),
        forall|k: int| 0 <= k < docs.len() ==> has_run(rows, (#[trigger] docs[k]).id),
        forall|k: int, j: int|
            0 <= k < docs.len() && 0 <= j < rows.len() && (#[trigger] rows[j]).id == (
            #[trigger] docs[k]).id ==> merge_run_row(rows[j], docs[k]) == rows[j],
    ensures
        upsert_runs_all(rows, docs) == rows,
    decreases docs.len(),
{
    if docs.len() > 0 {
        assert forall|k: int| 0 <= k < docs.drop_last().len() implies has_run(
            rows,
            (#[trigger] docs.drop_last()[k]).id,
        ) by {
            assert(has_run(rows, docs[k].id));
        }
        assert forall|k: int, j: int|
            0 <= k < docs.drop_last().len() && 0 <= j < rows.len() && (#[trigger] rows[j]).id == (
            #[trigger] docs.drop_last()[k]).id implies merge_run_row(rows[j], docs.drop_last()[k])
            == rows[j] by {
            assert(merge_run_row(rows[j], docs[k]) == rows[j]);
        }
        lemma_upsert_runs_all_identity(rows, docs.drop_last());
        assert(has_run(rows, docs[docs.len() - 1].id));
        assert forall|j: int|
            0 <= j < rows.len() && (#[trigger] rows[j]).id == docs.last().id implies merge_run_row(
            rows[j],
            docs.last(),
        ) == rows[j] by {
            assert(merge_run_row(rows[j], docs[docs.len() - 1]) == rows[j]);
        }
        lemma_upsert_run_identity(rows, docs.last());
    }
}


/// One attached case traces back to a row of the table.
spec fn case_provenance(rows: Seq<CaseRowV>, sid: Seq<char>, c: TestCaseV) -> bool {
    exists|i: int|
        0 <= i < rows.len() && (#[trigger] rows[i]).test_suite_id == sid && c == case_of_row(
            rows[i],
        )
}

/// The cases attached to one suite come one-for-one from distinct rows of
/// the table, and repeat no id.
proof fn lemma_cases_for_ids(rows: Seq<CaseRowV>, sid: Seq<char>)
    requires
        cases_distinct(rows),
    ensures
        forall|k: int|
            0 <= k < cases_for(rows, sid).len() ==> case_provenance(
                rows,
                sid,
                #[trigger] cases_for(rows, sid)[k],
            ),
        forall|k1: int, k2: int|
            0 <= k1 < k2 < cases_for(rows, sid).len() ==> (#[trigger] cases_for(rows, sid)[
            k1]).id != (#[trigger] cases_for(rows, sid)[k2]).id,
    decreases rows.len(),
{
    if rows.len() > 0 {
        assert forall|i: int, j: int| 0 <= i < j < rows.drop_last().len() implies (
        #[trigger] rows.drop_last()[i]).id != (#[trigger] rows.drop_last()[j]).id by {
            assert(rows[i].id != rows[j].id);
        }
        lemma_cases_for_ids(rows.drop_last(), sid);
        let rest = cases_for(rows.drop_last(), sid);
        let out = cases_for(rows, sid);
        assert forall|k: int| 0 <= k < out.len() implies case_provenance(
            rows,
            sid,
            #[trigger] out[k],
        ) by {
            if k < rest.len() {
                assert(out[k] == rest[k]);
                assert(case_provenance(rows.drop_last(), sid, rest[k]));
                let i = choose|i: int|
                    0 <= i < rows.drop_last().len() && (#[trigger] rows.drop_last()[
                    i]).test_suite_id == sid && rest[k] == case_of_row(rows.drop_last()[i]);
                assert(rows[i].test_suite_id == sid && out[k] == case_of_row(rows[i]));
            } else {
                assert(rows[rows.len() - 1].test_suite_id == sid && out[k] == case_of_row(
                    rows[rows.len() - 1],
                ));
            }
        }
        if rows.last().test_suite_id == sid {
            assert forall|k: int| 0 <= k < rest.len() implies (#[trigger] rest[k]).id
                != rows.last().id by {
                assert(case_provenance(rows.drop_last(), sid, rest[k]));
                let i = choose|i: int|
                    0 <= i < rows.drop_last().len() && (#[trigger] rows.drop_last()[
                    i]).test_suite_id == sid && rest[k] == case_of_row(rows.drop_last()[i]);
                assert(rows[i].id != rows[rows.len() - 1].id);
            }
        }
        assert forall|k1: int, k2: int| 0 <= k1 < k2 < out.len() implies (#[trigger] out[k1]).id
            != (#[trigger] out[k2]).id by {
            if k2 < rest.len() {
                assert(out[k1] == rest[k1] && out[k2] == rest[k2]);
            } else {
                assert(out[k1] == rest[k1]);
                assert(out[k2] == case_of_row(rows.last()));
            }
        }
    } else {
        assert(cases_for(rows, sid).len() == 0);
    }
}

/// Attaching results distributes over concatenation of the result table.
proof fn lemma_results_for_concat(a: Seq<ResultRowV>, b: Seq<ResultRowV>, rid: Seq<char>)
    ensures
        results_for(a + b, rid) == results_for(a, rid) + results_for(b, rid),
    decreases b.len(),
{
    if b.len() == 0 {
        assert(a + b =~= a);
        assert(results_for(a, rid) + results_for(b, rid) =~= results_for(a, rid));
    } else {
        lemma_results_for_concat(a, b.drop_last(), rid);
        assert((a + b).drop_last() =~= a + b.drop_last());
        assert((a + b).last() == b.last());
        if b.last().run_id == rid {
            assert(results_for(a, rid) + results_for(b, rid) =~= (results_for(a, rid)
                + results_for(b.drop_last(), rid)).push(result_of_row(b.last())));
        }
    }
}

/// Attaching the results of a run that does not occur yields nothing.
proof fn lemma_results_for_absent(rows: Seq<ResultRowV>, rid: Seq<char>)
    requires
        forall|k: int| 0 <= k < rows.len() ==> (#[trigger] rows[k]).run_id != rid,
    ensures
        results_for(rows, rid).len() == 0,
    decreases rows.len(),
{
    if rows.len() > 0 {
        assert forall|k: int| 0 <= k < rows.drop_last().len() implies (
        #[trigger] rows.drop_last()[k]).run_id != rid by {
            assert(rows[k].run_id != rid);
        }
        lemma_results_for_absent(rows.drop_last(), rid);
    }
}

/// The rows a run save writes read back as exactly the supplied list,
/// prefix by prefix.
proof fn lemma_results_for_fresh_prefix(r: RunResultV, n: int)
    requires
        0 <= n <= r.results.len(),
    ensures
        results_for(result_rows_of(r).take(n), r.id) == r.results.take(n),
    decreases n,
{
    if n > 0 {
        lemma_results_for_fresh_prefix(r, n - 1);
        let rows = result_rows_of(r);
        assert(rows.take(n).drop_last() =~= rows.take(n - 1));
        assert(rows.take(n).last() == rows[n - 1]);
        assert(rows[n - 1] == result_row_of(r.results[n - 1], r.id));
        assert(result_of_row(result_row_of(r.results[n - 1], r.id)) =~= r.results[n - 1]);
        assert(r.results.take(n) =~= r.results.take(n - 1).push(r.results[n - 1]));
    } else {
        assert(result_rows_of(r).take(0) =~= Seq::<ResultRowV>::empty());
        assert(r.results.take(0) =~= Seq::<TestCaseResultV>::empty());
    }
}

/// The rows a run save writes read back as exactly the supplied list.
proof fn lemma_results_for_fresh(r: RunResultV)
    ensures
        results_for(result_rows_of(r), r.id) == r.results,
{
    lemma_results_for_fresh_prefix(r, r.results.len() as int);
    assert(result_rows_of(r).take(r.results.len() as int) =~= result_rows_of(r));
    assert(r.results.take(r.results.len() as int) =~= r.results);
}

/// Attaching one document suite's cases out of the whole written case
/// table recovers exactly that suite's list.
proof fn lemma_cases_for_doc(docs: Seq<TestSuiteV>, m: int)
    requires
        doc_suite_ids_distinct(docs),
        0 <= m < docs.len(),
    ensures
        cases_for(doc_case_rows(docs), docs[m].id) == docs[m].test_cases,
    decreases docs.len(),
{
    let rest = doc_case_rows(docs.drop_last());
    let block = case_rows_of(docs.last());
    assert(doc_case_rows(docs) == rest + block);
    assert forall|i: int, j: int| 0 <= i < j < docs.drop_last().len() implies (
    #[trigger] docs.drop_last()[i]).id != (#[trigger] docs.drop_last()[j]).id by {
        assert(docs[i].id != docs[j].id);
    }
    lemma_cases_for_concat(rest, block, docs[m].id);
    if m == docs.len() - 1 {
        lemma_doc_case_rows_origin(docs.drop_last());
        assert forall|k: int| 0 <= k < rest.len() implies (#[trigger] rest[k]).test_suite_id
            != docs[m].id by {
            assert(doc_case_origin(docs.drop_last(), rest[k]));
            let (w, t) = choose|w: int, t: int|
                #![trigger docs.drop_last()[w].test_cases[t]]
                0 <= w < docs.drop_last().len() && 0 <= t < docs.drop_last()[
                w].test_cases.len() && rest[k] == case_row_at(
                    docs.drop_last()[w].test_cases[t],
                    docs.drop_last()[w].id,
                    t as i64,
                );
            assert(docs[w].id != docs[m].id);
        }
        lemma_cases_for_absent(rest, docs[m].id);
        lemma_cases_for_fresh(docs[m]);
        assert(cases_for(doc_case_rows(docs), docs[m].id) =~= docs[m].test_cases);
    } else {
        assert(docs.drop_last()[m] == docs[m]);
        lemma_cases_for_doc(docs.drop_last(), m);
        assert forall|t: int| 0 <= t < block.len() implies (#[trigger] block[t]).test_suite_id
            != docs[m].id by {
            assert(block[t].test_suite_id == docs[docs.len() - 1].id);
        }
        lemma_cases_for_absent(block, docs[m].id);
        assert(cases_for(doc_case_rows(docs), docs[m].id) =~= docs[m].test_cases);
    }
}

/// Attaching one document run's results out of the whole written result
/// table recovers exactly that run's list.
proof fn lemma_results_for_doc(docs: Seq<RunResultV>, m: int)
    requires
        doc_run_ids_distinct(docs),
        0 <= m < docs.len(),
    ensures
        results_for(doc_result_rows(docs), docs[m].id) == docs[m].results,
    decreases docs.len(),
{
    let rest = doc_result_rows(docs.drop_last());
    let block = result_rows_of(docs.last());
    assert(doc_result_rows(docs) == rest + block);
    assert forall|i: int, j: int| 0 <= i < j < docs.drop_last().len() implies (
    #[trigger] docs.drop_last()[i]).id != (#[trigger] docs.drop_last()[j]).id by {
        assert(docs[i].id != docs[j].id);
    }
    lemma_results_for_concat(rest, block, docs[m].id);
    if m == docs.len() - 1 {
        crate::store::lemma_doc_result_rows_member(docs.drop_last());
        assert forall|k: int| 0 <= k < rest.len() implies (#[trigger] rest[k]).run_id
            != docs[m].id by {
            let w = choose|w: int| #![trigger docs.drop_last()[w]]
                0 <= w < docs.drop_last().len() && rest[k].run_id == docs.drop_last()[w].id;
            assert(docs[w].id != docs[m].id);
        }
        lemma_results_for_absent(rest, docs[m].id);
        lemma_results_for_fresh(docs[m]);
        assert(results_for(doc_result_rows(docs), docs[m].id) =~= docs[m].results);
    } else {
        assert(docs.drop_last()[m] == docs[m]);
        lemma_results_for_doc(docs.drop_last(), m);
        assert forall|t: int| 0 <= t < block.len() implies (#[trigger] block[t]).run_id
            != docs[m].id by {
            assert(block[t].run_id == docs[docs.len() - 1].id);
        }
        lemma_results_for_absent(block, docs[m].id);
        assert(results_for(doc_result_rows(docs), docs[m].id) =~= docs[m].results);
    }
}


/// One written case row originates from some suite of the document, at its
/// list position.
spec fn doc_case_origin(docs: Seq<TestSuiteV>, row: CaseRowV) -> bool {
    exists|m: int, t: int|
        #![trigger docs[m].test_cases[t]]
        0 <= m < docs.len() && 0 <= t < docs[m].test_cases.len() && row == case_row_at(
            docs[m].test_cases[t],
            docs[m].id,
            t as i64,
        )
}

/// Every written case row originates from some suite of the document.
proof fn lemma_doc_case_rows_origin(docs: Seq<TestSuiteV>)
    ensures
        forall|k: int|
            0 <= k < doc_case_rows(docs).len() ==> doc_case_origin(
                docs,
                #[trigger] doc_case_rows(docs)[k],
            ),
    decreases docs.len(),
{
    if docs.len() > 0 {
        lemma_doc_case_rows_origin(docs.drop_last());
        let rest = doc_case_rows(docs.drop_last());
        let block = case_rows_of(docs.last());
        let out = doc_case_rows(docs);
        assert forall|k: int| 0 <= k < out.len() implies doc_case_origin(
            docs,
            #[trigger] out[k],
        ) by {
            if k < rest.len() {
                assert(out[k] == rest[k]);
                assert(doc_case_origin(docs.drop_last(), rest[k]));
                let (m, t) = choose|m: int, t: int|
                    #![trigger docs.drop_last()[m].test_cases[t]]
                    0 <= m < docs.drop_last().len() && 0 <= t < docs.drop_last()[
                    m].test_cases.len() && rest[k] == case_row_at(
                        docs.drop_last()[m].test_cases[t],
                        docs.drop_last()[m].id,
                        t as i64,
                    );
                assert(0 <= t < docs[m].test_cases.len() && out[k] == case_row_at(
                    docs[m].test_cases[t],
                    docs[m].id,
                    t as i64,
                ));
            } else {
                let t = k - rest.len();
                assert(out[k] == block[t]);
                assert(0 <= t < docs[docs.len() - 1].test_cases.len() && out[k] == case_row_at(
                    docs[docs.len() - 1].test_cases[t],
                    docs[docs.len() - 1].id,
                    t as i64,
                ));
            }
        }
    }
}

/// The case rows written for a document whose suites each list exactly
/// their stored cases repeat no id.
proof fn lemma_doc_cases_distinct(st_cases: Seq<CaseRowV>, docs: Seq<TestSuiteV>)
    requires
        cases_distinct(st_cases),
        doc_suite_ids_distinct(docs),
        forall|m: int|
            0 <= m < docs.len() ==> (#[trigger] docs[m]).test_cases == cases_for(
                st_cases,
                docs[m].id,
            ),
    ensures
        cases_distinct(doc_case_rows(docs)),
    decreases docs.len(),
{
    if docs.len() > 0 {
        assert forall|i: int, j: int| 0 <= i < j < docs.drop_last().len() implies (
        #[trigger] docs.drop_last()[i]).id != (#[trigger] docs.drop_last()[j]).id by {
            assert(docs[i].id != docs[j].id);
        }
        assert forall|m: int| 0 <= m < docs.drop_last().len() implies (
        #[trigger] docs.drop_last()[m]).test_cases == cases_for(
            st_cases,
            docs.drop_last()[m].id,
        ) by {
            assert(docs[m].test_cases == cases_for(st_cases, docs[m].id));
        }
        lemma_doc_cases_distinct(st_cases, docs.drop_last());
        lemma_doc_case_rows_origin(docs.drop_last());
        let rest = doc_case_rows(docs.drop_last());
        let d = docs.last();
        let block = case_rows_of(d);
        let out = doc_case_rows(docs);
        assert(d.test_cases == cases_for(st_cases, d.id));
        lemma_cases_for_ids(st_cases, d.id);
        assert forall|k1: int, k2: int| 0 <= k1 < k2 < out.len() implies (#[trigger] out[k1]).id
            != (#[trigger] out[k2]).id by {
            if k2 < rest.len() {
                assert(out[k1] == rest[k1] && out[k2] == rest[k2]);
            } else if k1 >= rest.len() {
                let t1 = k1 - rest.len();
                let t2 = k2 - rest.len();
                assert(out[k1] == block[t1] && out[k2] == block[t2]);
                assert(block[t1].id == cases_for(st_cases, d.id)[t1].id);
                assert(block[t2].id == cases_for(st_cases, d.id)[t2].id);
            } else {
                let t2 = k2 - rest.len();
                assert(out[k1] == rest[k1] && out[k2] == block[t2]);
                assert(doc_case_origin(docs.drop_last(), rest[k1]));
                let (m1, t1) = choose|m1: int, t1: int|
                    #![trigger docs.drop_last()[m1].test_cases[t1]]
                    0 <= m1 < docs.drop_last().len() && 0 <= t1 < docs.drop_last()[
                    m1].test_cases.len() && rest[k1] == case_row_at(
                        docs.drop_last()[m1].test_cases[t1],
                        docs.drop_last()[m1].id,
                        t1 as i64,
                    );
                assert(docs[m1].test_cases == cases_for(st_cases, docs[m1].id));
                lemma_cases_for_ids(st_cases, docs[m1].id);
                assert(case_provenance(st_cases, docs[m1].id, cases_for(st_cases, docs[m1].id)[
                t1]));
                let i1 = choose|i1: int|
                    0 <= i1 < st_cases.len() && (#[trigger] st_cases[i1]).test_suite_id == docs[
                    m1].id && cases_for(st_cases, docs[m1].id)[t1] == case_of_row(st_cases[i1]);
                assert(case_provenance(st_cases, d.id, cases_for(st_cases, d.id)[t2]));
                let i2 = choose|i2: int|
                    0 <= i2 < st_cases.len() && (#[trigger] st_cases[i2]).test_suite_id == d.id
                        && cases_for(st_cases, d.id)[t2] == case_of_row(st_cases[i2]);
                assert(out[k1].id == st_cases[i1].id);
                assert(out[k2].id == st_cases[i2].id);
                if out[k1].id == out[k2].id {
                    if i1 != i2 {
                        assert(st_cases[i1].id != st_cases[i2].id);
                    }
                    assert(i1 == i2);
                    assert(docs[m1].id == d.id);
                    assert(docs[m1].id != docs[docs.len() - 1].id);
                    assert(false);
                }
            }
        }
    }
}

/// The ids of the suite listing repeat no id; the listing's length is the
/// table's.
proof fn lemma_view_suites_facts(st: StoreV)
    requires
        suites_distinct(st.suites),
    ensures
        suites_view(st).len() == st.suites.len(),
        doc_suite_ids_distinct(suites_view(st)),
        forall|m: int|
            0 <= m < suites_view(st).len() ==> (#[trigger] suites_view(st)[m]).id == sort_suites(
                st.suites,
            )[m].id,
        forall|m: int|
            0 <= m < suites_view(st).len() ==> (#[trigger] suites_view(st)[m]).test_cases
                == cases_for(st.cases, suites_view(st)[m].id),
{
    lemma_sort_suites_len(st.suites);
    lemma_sort_suites_distinct(st.suites);
}

/// Sorting keeps the length.
proof fn lemma_sort_runs_len(rows: Seq<RunRowV>)
    ensures
        sort_runs(rows).len() == rows.len(),
    decreases rows.len(),
{
    if rows.len() > 0 {
        lemma_sort_runs_len(rows.drop_last());
        lemma_run_pos_facts(sort_runs(rows.drop_last()), rows.last().started_at);
    }
}

/// The ids of the run listing repeat no id; the listing's length is the
/// table's.
proof fn lemma_view_runs_facts(st: StoreV)
    requires
        runs_distinct(st.runs),
    ensures
        runs_view(st).len() == st.runs.len(),
        doc_run_ids_distinct(runs_view(st)),
        forall|m: int|
            0 <= m < runs_view(st).len() ==> (#[trigger] runs_view(st)[m]).id == sort_runs(
                st.runs,
            )[m].id,
        forall|m: int|
            0 <= m < runs_view(st).len() ==> (#[trigger] runs_view(st)[m]).results == results_for(
                st.results,
                runs_view(st)[m].id,
            ),
{
    lemma_sort_runs_len(st.runs);
    lemma_sort_runs_distinct(st.runs);
}

/// A document read out of a well-formed store is accepted back by the
/// snapshot write.
proof fn lemma_round_trip_ok(st: StoreV, doc: BenchmakerDbV)
    requires
        st.wf(),
        doc.test_suites == suites_view(st),
        doc.runs == runs_view(st),
    ensures
        write_snapshot_ok(doc),
{
    lemma_view_suites_facts(st);
    lemma_view_runs_facts(st);
    lemma_doc_cases_distinct(st.cases, doc.test_suites);
}

/// Every stored suite id is named by its own listing.
proof fn lemma_view_names_all_suites(st: StoreV, docs: Seq<TestSuiteV>)
    requires
        st.wf(),
        docs == suites_view(st),
    ensures
        forall|i: int|
            0 <= i < st.suites.len() ==> doc_has_suite(docs, (#[trigger] st.suites[i]).id),
{
    lemma_view_suites_facts(st);
    let sorted = sort_suites(st.suites);
    lemma_sort_suites_member(st.suites);
    assert forall|i: int| 0 <= i < st.suites.len() implies doc_has_suite(
        docs,
        (#[trigger] st.suites[i]).id,
    ) by {
        let k = choose|k: int| #![trigger sorted[k]]
            0 <= k < sorted.len() && sorted[k] == st.suites[i];
        assert(docs[k].id == st.suites[i].id);
    }
}

/// Every listed suite names a stored row, which it matches field by field.
proof fn lemma_view_matches_stored_suites(st: StoreV, docs: Seq<TestSuiteV>)
    requires
        st.wf(),
        docs == suites_view(st),
    ensures
        forall|k: int| 0 <= k < docs.len() ==> has_suite(st.suites, (#[trigger] docs[k]).id),
        forall|k: int, j: int|
            0 <= k < docs.len() && 0 <= j < st.suites.len() && (#[trigger] st.suites[j]).id == (
            #[trigger] docs[k]).id ==> merge_suite_row(st.suites[j], docs[k]) == st.suites[j],
{
    lemma_view_suites_facts(st);
    let sorted = sort_suites(st.suites);
    lemma_sort_suites_member_rev(st.suites);
    assert forall|k: int| 0 <= k < docs.len() implies has_suite(
        st.suites,
        (#[trigger] docs[k]).id,
    ) by {
        let i = choose|i: int| #![trigger st.suites[i]]
            0 <= i < st.suites.len() && st.suites[i] == sorted[k];
        assert(st.suites[i].id == docs[k].id);
    }
    assert forall|k: int, j: int|
        0 <= k < docs.len() && 0 <= j < st.suites.len() && (#[trigger] st.suites[j]).id == (
        #[trigger] docs[k]).id implies merge_suite_row(st.suites[j], docs[k]) == st.suites[j] by {
        let i = choose|i: int| #![trigger st.suites[i]]
            0 <= i < st.suites.len() && st.suites[i] == sorted[k];
        if i != j {
            assert(st.suites[i].id != st.suites[j].id);
        }
        assert(st.suites[j] == sorted[k]);
        assert(docs[k] == suite_entity(sorted[k], st.cases));
        assert(merge_suite_row(st.suites[j], docs[k]) =~= st.suites[j]);
    }
}

/// Writing back the suites of a read changes no suite row.
proof fn lemma_round_trip_suites(st: StoreV, docs: Seq<TestSuiteV>)
    requires
        st.wf(),
        docs == suites_view(st),
    ensures
        upsert_suites_all(keep_doc_suites(st.suites, docs), docs) == st.suites,
{
    lemma_view_names_all_suites(st, docs);
    lemma_keep_doc_suites_all(st.suites, docs);
    lemma_view_matches_stored_suites(st, docs);
    lemma_upsert_suites_all_identity(st.suites, docs);
}

/// Every stored run id is named by its own listing.
proof fn lemma_view_names_all_runs(st: StoreV, rdocs: Seq<RunResultV>)
    requires
        st.wf(),
        rdocs == runs_view(st),
    ensures
        forall|i: int| 0 <= i < st.runs.len() ==> doc_has_run(rdocs, (#[trigger] st.runs[i]).id),
{
    lemma_view_runs_facts(st);
    let rsorted = sort_runs(st.runs);
    lemma_sort_runs_member(st.runs);
    assert forall|i: int| 0 <= i < st.runs.len() implies doc_has_run(
        rdocs,
        (#[trigger] st.runs[i]).id,
    ) by {
        let k = choose|k: int| #![trigger rsorted[k]]
            0 <= k < rsorted.len() && rsorted[k] == st.runs[i];
        assert(rdocs[k].id == st.runs[i].id);
    }
}

/// Every listed run names a stored row, which it matches field by field.
proof fn lemma_view_matches_stored_runs(st: StoreV, rdocs: Seq<RunResultV>)
    requires
        st.wf(),
        rdocs == runs_view(st),
    ensures
        forall|k: int| 0 <= k < rdocs.len() ==> has_run(st.runs, (#[trigger] rdocs[k]).id),
        forall|k: int, j: int|
            0 <= k < rdocs.len() && 0 <= j < st.runs.len() && (#[trigger] st.runs[j]).id == (
            #[trigger] rdocs[k]).id ==> merge_run_row(st.runs[j], rdocs[k]) == st.runs[j],
{
    lemma_view_runs_facts(st);
    let rsorted = sort_runs(st.runs);
    lemma_sort_runs_member_rev(st.runs);
    assert forall|k: int| 0 <= k < rdocs.len() implies has_run(
        st.runs,
        (#[trigger] rdocs[k]).id,
    ) by {
        let i = choose|i: int| #![trigger st.runs[i]]
            0 <= i < st.runs.len() && st.runs[i] == rsorted[k];
        assert(st.runs[i].id == rdocs[k].id);
    }
    assert forall|k: int, j: int|
        0 <= k < rdocs.len() && 0 <= j < st.runs.len() && (#[trigger] st.runs[j]).id == (
        #[trigger] rdocs[k]).id implies merge_run_row(st.runs[j], rdocs[k]) == st.runs[j] by {
        let i = choose|i: int| #![trigger st.runs[i]]
            0 <= i < st.runs.len() && st.runs[i] == rsorted[k];
        if i != j {
            assert(st.runs[i].id != st.runs[j].id);
        }
        assert(st.runs[j] == rsorted[k]);
        assert(rdocs[k] == run_entity(rsorted[k], st.results));
        assert(merge_run_row(st.runs[j], rdocs[k]) =~= st.runs[j]);
    }
}

/// Writing back the runs of a read changes no run row.
proof fn lemma_round_trip_runs(st: StoreV, rdocs: Seq<RunResultV>)
    requires
        st.wf(),
        rdocs == runs_view(st),
    ensures
        upsert_runs_all(keep_doc_runs(st.runs, rdocs), rdocs) == st.runs,
{
    lemma_view_names_all_runs(st, rdocs);
    lemma_keep_doc_runs_all(st.runs, rdocs);
    lemma_view_matches_stored_runs(st, rdocs);
    lemma_upsert_runs_all_identity(st.runs, rdocs);
}

/// Round trip through the snapshot facade: a document read out of a
/// well-formed store is accepted back by the snapshot write, and reading
/// the written store returns the same suites, the same runs and the same
/// pointer fields — only the stamped version and write time are supplied
/// afresh.
#[verifier::rlimit(100)]
pub proof fn lemma_snapshot_round_trip(st: StoreV, doc: BenchmakerDbV)
    requires
        st.wf(),
        doc.test_suites == suites_view(st),
        doc.runs == runs_view(st),
        doc.active_test_suite_id == match st.app_state {
            Some(a) => a.active_test_suite_id,
            None => None::<Seq<char>>,
        },
        doc.current_run_id == match st.app_state {
            Some(a) => a.current_run_id,
            None => None::<Seq<char>>,
        },
    ensures
        write_snapshot_ok(doc),
        ({
            let post = StoreV {
                suites: upsert_suites_all(
                    keep_doc_suites(st.suites, doc.test_suites),
                    doc.test_suites,
                ),
                cases: doc_case_rows(doc.test_suites),
                runs: upsert_runs_all(keep_doc_runs(st.runs, doc.runs), doc.runs),
                results: doc_result_rows(doc.runs),
                app_state: Some(
                    AppStateV {
                        active_test_suite_id: doc.active_test_suite_id,
                        current_run_id: doc.current_run_id,
                    },
                ),
                ..st
            };
            &&& suites_view(post) == doc.test_suites
            &&& runs_view(post) == doc.runs
            &&& post.app_state == Some(
                AppStateV {
                    active_test_suite_id: doc.active_test_suite_id,
                    current_run_id: doc.current_run_id,
                },
            )
        }),
{
    let docs = doc.test_suites;
    let rdocs = doc.runs;
    lemma_round_trip_ok(st, doc);
    lemma_round_trip_suites(st, docs);
    lemma_round_trip_runs(st, rdocs);
    lemma_view_suites_facts(st);
    lemma_view_runs_facts(st);
    let post = StoreV {
        suites: upsert_suites_all(keep_doc_suites(st.suites, docs), docs),
        cases: doc_case_rows(docs),
        runs: upsert_runs_all(keep_doc_runs(st.runs, rdocs), rdocs),
        results: doc_result_rows(rdocs),
        app_state: Some(
            AppStateV {
                active_test_suite_id: doc.active_test_suite_id,
                current_run_id: doc.current_run_id,
            },
        ),
        ..st
    };
    assert(post.suites == st.suites);
    assert(post.runs == st.runs);
    let sorted = sort_suites(st.suites);
    let rsorted = sort_runs(st.runs);
    assert forall|k: int| 0 <= k < suites_view(post).len() implies #[trigger] suites_view(post)[k]
        == docs[k] by {
        lemma_cases_for_doc(docs, k);
        assert(suites_view(post)[k] == suite_entity(sorted[k], post.cases));
        assert(docs[k] == suite_entity(sorted[k], st.cases));
        assert(cases_for(post.cases, docs[k].id) == docs[k].test_cases);
        assert(suites_view(post)[k] =~= docs[k]);
    }
    assert(suites_view(post) =~= docs);
    assert forall|k: int| 0 <= k < runs_view(post).len() implies #[trigger] runs_view(post)[k]
        == rdocs[k] by {
        lemma_results_for_doc(rdocs, k);
        assert(runs_view(post)[k] == run_entity(rsorted[k], post.results));
        assert(rdocs[k] == run_entity(rsorted[k], st.results));
        assert(results_for(post.results, rdocs[k].id) == rdocs[k].results);
        assert(runs_view(post)[k] =~= rdocs[k]);
    }
    assert(runs_view(post) =~= rdocs);
}

} // verus!
