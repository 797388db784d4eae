//! Tests of the search for a revision worth going back to.
use miniswe_tools::fast::revisions::{RecordArgs, RevisionStore};
use miniswe_tools::fast::rewind_candidate::{
    find_rewind_candidate, CANDIDATE_MAX_ERRORS, REGRESSION_MARGIN,
};

fn rec(op: &'static str, ast_ok: bool, file_errors: usize) -> RecordArgs<'static> {
    RecordArgs {
        operation: op,
        label: op,
        range: None,
        payload: None,
        added: 1,
        removed: 1,
        ast_ok,
        ast_error: if ast_ok {
            None
        } else {
            Some("err".to_string())
        },
        file_errors,
        project_errors: file_errors,
    }
}

#[test]
fn finds_the_abandoned_clean_revision() {
    // rev_0 initial(0) -> rev_1 add_param(0) -> rev_2 ok(1) -> ... -> rev_5 ok(31, current)
    let mut store = RevisionStore::with_cap(20);
    store.ensure_pristine("run.rs", "v0").unwrap();
    store
        .record("run.rs", "v1", rec("change_signature.add_param", true, 0))
        .unwrap();
    store
        .record("run.rs", "v4", rec("replace_range", true, 1))
        .unwrap();
    store
        .record("run.rs", "v5", rec("replace_range", true, 31))
        .unwrap();

    let c = find_rewind_candidate(&["run.rs".to_string()], &store).unwrap();
    assert_eq!(c.path, "run.rs");
    assert_eq!(c.rev, 2); // the rev holding file_errors=1 (numbered 2 in this store)
    assert_eq!(c.file_errors_now, 31);
    assert_eq!(c.file_errors_then, 1);
}

#[test]
fn no_candidate_when_current_is_already_best() {
    // Monotonically improving (even though still broken) — no earlier rev is better.
    let mut store = RevisionStore::with_cap(20);
    store.ensure_pristine("mod.rs", "v0").unwrap();
    store
        .record("mod.rs", "v1", rec("replace_range", false, 29))
        .unwrap();
    store
        .record("mod.rs", "v2", rec("replace_range", false, 51))
        .unwrap();
    store
        .record("mod.rs", "v3", rec("replace_range", false, 4))
        .unwrap();

    assert!(find_rewind_candidate(&["mod.rs".to_string()], &store).is_none());
}

#[test]
fn no_candidate_when_regression_is_below_margin() {
    let mut store = RevisionStore::with_cap(20);
    store.ensure_pristine("f.rs", "v0").unwrap();
    store
        .record("f.rs", "v1", rec("replace_range", true, 0))
        .unwrap();
    store
        .record("f.rs", "v2", rec("replace_range", true, 2))
        .unwrap(); // delta=2 < margin=3

    assert!(find_rewind_candidate(&["f.rs".to_string()], &store).is_none());
}

#[test]
fn ignores_pristine_as_a_candidate_target() {
    // Only rev_0 is clean; every real edit made things worse. Undoing
    // everything is SCRAP's job, not a targeted single-file rewind.
    let mut store = RevisionStore::with_cap(20);
    store.ensure_pristine("f.rs", "v0").unwrap();
    store
        .record("f.rs", "v1", rec("replace_range", false, 10))
        .unwrap();
    store
        .record("f.rs", "v2", rec("replace_range", false, 8))
        .unwrap();

    assert!(find_rewind_candidate(&["f.rs".to_string()], &store).is_none());
}

#[test]
fn picks_the_larger_regression_across_files() {
    let mut store = RevisionStore::with_cap(20);
    store.ensure_pristine("small.rs", "v0").unwrap();
    store
        .record("small.rs", "v1", rec("replace_range", true, 0))
        .unwrap();
    store
        .record("small.rs", "v2", rec("replace_range", true, 5))
        .unwrap(); // delta=5

    store.ensure_pristine("big.rs", "v0").unwrap();
    store
        .record("big.rs", "v1", rec("replace_range", true, 1))
        .unwrap();
    store
        .record("big.rs", "v2", rec("replace_range", true, 40))
        .unwrap(); // delta=39

    let c =
        find_rewind_candidate(&["small.rs".to_string(), "big.rs".to_string()], &store).unwrap();
    assert_eq!(c.path, "big.rs");
}

#[test]
fn reverted_revisions_are_excluded_from_consideration() {
    // A manually-reverted-away good rev must not surface as "current" or
    // as a candidate source — only the LIVE chain matters.
    let mut store = RevisionStore::with_cap(20);
    store.ensure_pristine("f.rs", "v0").unwrap();
    store
        .record("f.rs", "v1", rec("replace_range", true, 0))
        .unwrap();
    store.mark_reverted_to("f.rs", 0).unwrap();
    store
        .record("f.rs", "v2", rec("replace_range", true, 20))
        .unwrap();

    // rev_1 is tombstoned (reverted), so the only live history is
    // rev_0(0) -> rev_2(20); rev_0 is pristine and excluded => no candidate.
    assert!(find_rewind_candidate(&["f.rs".to_string()], &store).is_none());
}

#[test]
fn a_candidate_is_clean_enough_and_far_enough_below() {
    let mut store = RevisionStore::with_cap(20);
    store.ensure_pristine("f.rs", "v0").unwrap();
    store.record("f.rs", "v1", rec("replace_range", true, CANDIDATE_MAX_ERRORS)).unwrap();
    store
        .record("f.rs", "v2", rec("replace_range", true, CANDIDATE_MAX_ERRORS + REGRESSION_MARGIN))
        .unwrap();
    let c = find_rewind_candidate(&["f.rs".to_string()], &store).unwrap();
    assert_eq!(c.rev, 1);
    assert!(c.file_errors_then <= CANDIDATE_MAX_ERRORS);
    assert!(c.file_errors_now - c.file_errors_then >= REGRESSION_MARGIN);
    assert!(find_rewind_candidate(&["unknown.rs".to_string()], &store).is_none());
    assert!(find_rewind_candidate(&[], &store).is_none());
}
