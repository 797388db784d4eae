//! Tests of the way out of a row of broken edits.
use miniswe_tools::fast::auto_revert::{
    cascade_message, find_cascade, maybe_break_cascade, CASCADE_THRESHOLD,
};
use miniswe_tools::fast::revisions::{RecordArgs, RevisionStore};

/// Puts a file whose text is `disk` back to its last clean revision, where a row of
/// broken edits asks for that.
fn break_cascade(path: &str, disk: &mut String, store: &mut RevisionStore) -> Option<String> {
    let found = maybe_break_cascade(path, store)?;
    *disk = found.restored;
    store.mark_reverted_to(path, found.anchor).unwrap();
    Some(found.message)
}

fn record(store: &mut RevisionStore, path: &str, content: &str, ast_ok: bool) {
    store
        .record(
            path,
            content,
            RecordArgs {
                operation: "replace_range",
                label: "replace_range L1-1",
                range: Some((1, 1)),
                payload: Some(content.to_string()),
                added: 1,
                removed: 1,
                ast_ok,
                ast_error: if ast_ok {
                    None
                } else {
                    Some("L1:1: syntax error".into())
                },
                file_errors: 0,
                project_errors: 0,
            },
        )
        .unwrap();
}

#[test]
fn no_cascade_when_current_state_is_clean() {
    let mut disk = String::from("fn ok() {}\n");
    let mut store = RevisionStore::with_cap(50);
    store.ensure_pristine("f.rs", "fn ok() {}\n").unwrap();
    record(&mut store, "f.rs", "broken", false);
    record(&mut store, "f.rs", "fn ok() {}\n", true); // recovered
    assert!(
        break_cascade("f.rs", &mut disk, &mut store)
            .is_none()
    );
}

#[test]
fn no_cascade_below_threshold() {
    let mut disk = String::from("broken2");
    let mut store = RevisionStore::with_cap(50);
    store.ensure_pristine("f.rs", "fn ok() {}\n").unwrap();
    record(&mut store, "f.rs", "broken1", false);
    record(&mut store, "f.rs", "broken2", false); // only 2 broken in a row
    assert!(
        break_cascade("f.rs", &mut disk, &mut store)
            .is_none()
    );
}

#[test]
fn cascade_reverts_to_last_clean_revision() {
    let pristine = "fn ok() {}\n";
    let mut disk = String::from("broken3");
    let mut store = RevisionStore::with_cap(50);
    store.ensure_pristine("f.rs", pristine).unwrap();
    record(&mut store, "f.rs", "broken1", false);
    record(&mut store, "f.rs", "broken2", false);
    record(&mut store, "f.rs", "broken3", false); // 3 broken in a row → cascade

    let msg = break_cascade("f.rs", &mut disk, &mut store)
        .expect("cascade should fire");
    assert!(msg.contains("auto-revert"));
    assert!(msg.contains("rev_0"));
    // File on disk restored to pristine.
    let disk = disk.clone();
    assert_eq!(disk, pristine);
    // Broken revs are now tombstones; current live rev is rev_0.
    assert_eq!(store.current("f.rs"), Some(0));
}

#[test]
fn cascade_anchors_on_intervening_clean_rev() {
    let good = "fn good() {}\n";
    let mut disk = String::from("broken3");
    let mut store = RevisionStore::with_cap(50);
    store.ensure_pristine("f.rs", "fn ok() {}\n").unwrap();
    record(&mut store, "f.rs", good, true); // rev_1 clean
    record(&mut store, "f.rs", "broken1", false);
    record(&mut store, "f.rs", "broken2", false);
    record(&mut store, "f.rs", "broken3", false); // 3 broken → cascade

    let msg = break_cascade("f.rs", &mut disk, &mut store)
        .expect("cascade should fire");
    assert!(msg.contains("rev_1"), "should anchor on rev_1: {msg}");
    let disk = disk.clone();
    assert_eq!(disk, good);
    assert_eq!(store.current("f.rs"), Some(1));
}

#[test]
fn cascade_after_manual_reverts_tombstone_earlier_revs() {
    let mut disk = String::from("broken11");
    let mut store = RevisionStore::with_cap(50);
    store.ensure_pristine("m.rs", "fn ok() {}\n").unwrap();
    // 8 broken edits, each followed by a manual revert to rev_0.
    for i in 1..=8 {
        record(&mut store, "m.rs", &format!("broken{i}"), false);
        store.mark_reverted_to("m.rs", 0).unwrap();
    }
    // 3 consecutive broken with no revert between → cascade.
    record(&mut store, "m.rs", "broken9", false);
    record(&mut store, "m.rs", "broken10", false);
    record(&mut store, "m.rs", "broken11", false);
    assert!(
        break_cascade("m.rs", &mut disk, &mut store)
            .is_some(),
        "guard must fire on 3 live consecutive broken even when earlier revs are tombstoned"
    );
}

#[test]
fn a_cascade_needs_enough_broken_revisions_in_a_row() {
    let mut store = RevisionStore::with_cap(50);
    store.ensure_pristine("f.rs", "a").unwrap();
    for i in 0..CASCADE_THRESHOLD {
        assert_eq!(find_cascade(&store.list("f.rs")), None);
        record(&mut store, "f.rs", &format!("b{i}"), false);
    }
    assert_eq!(find_cascade(&store.list("f.rs")), Some((0, CASCADE_THRESHOLD)));
    record(&mut store, "f.rs", "clean", true);
    assert_eq!(find_cascade(&store.list("f.rs")), None);
    assert!(maybe_break_cascade("unknown.rs", &store).is_none());
}

#[test]
fn the_message_names_file_count_and_anchor() {
    let msg = cascade_message("f.rs", 4, 2);
    assert!(msg.contains("f.rs"), "{msg}");
    assert!(msg.contains('4'), "{msg}");
    assert!(msg.contains("rev_2"), "{msg}");
}
