use diamond_types::oplog::OpLog;
use diamond_types::remote::{ExtOpContents, MergeError};
use diamond_types::ROOT_TIME;

fn build_sample() -> OpLog {
    let mut a = OpLog::new();
    let seph = a.get_or_create_agent_id("seph");
    let mike = a.get_or_create_agent_id("mike");
    a.push_insert_at(seph, &[ROOT_TIME], 0, "a");
    a.push_insert_at(mike, &[ROOT_TIME], 0, "b");
    a.push_insert_at(seph, &[0, 1], 1, "c");
    a.push_delete(seph, 0, 1);
    a
}

#[test]
fn replication_round_trip() {
    let a = build_sample();
    let ops = a.ext_ops_since(&[]);
    assert_eq!(ops.len(), a.len());
    let mut b = OpLog::new();
    b.merge_ext_ops(&ops).unwrap();
    assert!(a.eq(&b));
    assert!(b.eq(&a));
}

#[test]
fn replication_minimal_diff() {
    let mut a = OpLog::new();
    let seph = a.get_or_create_agent_id("seph");
    for i in 0..10 {
        a.push_insert(seph, i, "x");
    }
    let mut b = OpLog::new();
    b.merge_ext_ops(&a.ext_ops_since(&[])).unwrap();
    assert!(a.eq(&b));

    a.push_insert(seph, 3, "y");
    let diff = a.ext_ops_since(b.get_frontier().as_vec().as_slice());
    assert_eq!(diff.len(), 1);
    match &diff[0].contents {
        ExtOpContents::Text(t) => {
            assert_eq!(t.pos, 3);
            assert_eq!(t.content.as_deref(), Some("y"));
        }
        _ => panic!("expected a text operation"),
    }
    b.merge_ext_ops(&diff).unwrap();
    assert!(a.eq(&b));
    assert_eq!(b.get_frontier().as_vec(), a.get_frontier().as_vec());
}

#[test]
fn closure_contains_ancestors_only() {
    let a = build_sample();
    let frontier = a.get_frontier().as_vec();
    for t in 0..a.len() {
        assert!(a.contains(frontier.as_slice(), t));
    }
    // Nothing is an ancestor of the empty version.
    assert!(!a.contains(&[], 0));
    // Time 1 (mike's insert) is not below seph's first insert.
    assert!(a.contains(&[1], 1));
    assert!(!a.contains(&[1], 0));
}

#[test]
fn merge_reports_missing_parents() {
    let a = build_sample();
    let mut ops = a.ext_ops_since(&[]);
    // Drop the first operation: its dependents' parents are now unknown.
    ops.remove(0);
    let mut b = OpLog::new();
    assert_eq!(b.merge_ext_ops(&ops), Err(MergeError::MissingParent));
}

#[test]
fn merge_rejects_stale_sequence_numbers() {
    let a = build_sample();
    let ops = a.ext_ops_since(&[]);
    let mut b = OpLog::new();
    b.merge_ext_ops(&ops).unwrap();
    // Merging the same batch again replays used sequence numbers.
    assert_eq!(b.merge_ext_ops(&ops), Err(MergeError::SeqMismatch));
}
