use diamond_types::oplog::OpLog;
use diamond_types::ROOT_TIME;

fn is_eq(a: &OpLog, b: &OpLog) -> bool {
    let a_eq_b = a.eq(b);
    let b_eq_a = b.eq(a);
    assert_eq!(a_eq_b, b_eq_a);
    a_eq_b
}

#[test]
fn eq_smoke_test() {
    let mut a = OpLog::new();
    assert!(is_eq(&a, &a));
    a.get_or_create_agent_id("seph");
    a.get_or_create_agent_id("mike");
    a.push_insert_at(0, &[ROOT_TIME], 0, "Aa");
    a.push_insert_at(1, &[ROOT_TIME], 0, "b");
    a.push_delete_at(0, &[1, 2], 0, 2);

    // Same history, different order.
    let mut b = OpLog::new();
    b.get_or_create_agent_id("mike");
    b.get_or_create_agent_id("seph");
    b.push_insert_at(0, &[ROOT_TIME], 0, "b");
    b.push_insert_at(1, &[ROOT_TIME], 0, "Aa");
    b.push_delete_at(1, &[0, 2], 0, 2);

    assert!(is_eq(&a, &b));

    // And now with the edits interleaved.
    let mut c = OpLog::new();
    c.get_or_create_agent_id("seph");
    c.get_or_create_agent_id("mike");
    c.push_insert_at(0, &[ROOT_TIME], 0, "A");
    c.push_insert_at(1, &[ROOT_TIME], 0, "b");
    c.push_insert_at(0, &[0], 1, "a");
    c.push_delete_at(0, &[1, 2], 0, 2);

    assert!(is_eq(&a, &c));
    assert!(is_eq(&b, &c));
}

#[test]
fn monotone_times() {
    let mut log = OpLog::new();
    let seph = log.get_or_create_agent_id("seph");
    assert_eq!(log.len(), 0);
    let t = log.push_insert(seph, 0, "hi");
    assert_eq!(t, 1);
    assert_eq!(log.len(), 2);
    let t = log.push_delete(seph, 0, 2);
    assert_eq!(t, 3);
    assert_eq!(log.len(), 4);
}

#[test]
fn agent_map_roundtrip() {
    let mut log = OpLog::new();
    let seph = log.get_or_create_agent_id("seph");
    let mike = log.get_or_create_agent_id("mike");
    log.push_insert_at(seph, &[ROOT_TIME], 0, "ab");
    log.push_insert_at(mike, &[ROOT_TIME], 0, "c");
    for t in 0..log.len() {
        let id = log.time_to_crdt_id(t);
        assert_eq!(log.crdt_id_to_time(id), t);
    }
    let id0 = log.time_to_crdt_id(0);
    assert_eq!(id0.agent, seph);
    assert_eq!(id0.seq, 0);
    let id2 = log.time_to_crdt_id(2);
    assert_eq!(id2.agent, mike);
    assert_eq!(id2.seq, 0);
    log.dbg_check(true);
}

#[test]
fn root_id_is_reserved() {
    let mut log = OpLog::new();
    assert_eq!(log.get_or_create_agent_id("ROOT"), diamond_types::ROOT_AGENT);
    assert_eq!(log.get_agent_id("ROOT"), Some(diamond_types::ROOT_AGENT));
    assert_eq!(log.get_agent_id("seph"), None);
    let seph = log.get_or_create_agent_id("seph");
    assert_eq!(log.get_agent_name(seph), "seph");
    assert_eq!(log.get_agent_name(diamond_types::ROOT_AGENT), "ROOT");
}

#[test]
fn concurrent_inserts_widen_frontier() {
    let mut log = OpLog::new();
    let a = log.get_or_create_agent_id("alice");
    let b = log.get_or_create_agent_id("bob");
    log.push_insert_at(a, &[ROOT_TIME], 0, "x");
    log.push_insert_at(b, &[ROOT_TIME], 0, "y");
    assert_eq!(log.get_frontier().len(), 2);
    let hist = log.iter_history();
    assert_eq!(hist.len(), 2);
    assert_eq!(hist[0].parents, vec![ROOT_TIME]);
    assert_eq!(hist[1].parents, vec![ROOT_TIME]);
}

#[test]
fn linear_history_merges_to_one_entry() {
    let mut log = OpLog::new();
    let seph = log.get_or_create_agent_id("seph");
    for i in 0..100 {
        log.push_insert(seph, i, "a");
    }
    assert_eq!(log.len(), 100);
    let hist = log.iter_history();
    assert_eq!(hist.len(), 1);
    assert_eq!(hist[0].span.start, 0);
    assert_eq!(hist[0].span.end, 100);
    assert_eq!(log.history.entries.0[0].shadow, ROOT_TIME);
    assert_eq!(log.get_frontier().len(), 1);
    assert_eq!(log.get_frontier().get(0), 99);
}

#[test]
fn bubble_merge_wires_both_edges() {
    let mut log = OpLog::new();
    let x = log.get_or_create_agent_id("x");
    let y = log.get_or_create_agent_id("y");
    log.push_insert_at(x, &[ROOT_TIME], 0, "a");
    log.push_insert_at(y, &[ROOT_TIME], 0, "b");
    assert_eq!(log.get_frontier().len(), 2);
    log.push_insert_at(x, &[0, 1], 0, "c");
    let merge = &log.history.entries.0[2];
    assert_eq!(merge.parent_indexes.len(), 2);
    // Together the two parents cover all of history, so the merge's shadow
    // reaches the origin; the concurrent second entry's does not.
    assert_eq!(merge.shadow, ROOT_TIME);
    assert_eq!(log.history.entries.0[1].shadow, 1);
    assert!(log.history.entries.0[0].child_indexes.contains(&2));
    assert!(log.history.entries.0[1].child_indexes.contains(&2));
    assert_eq!(log.get_frontier().len(), 1);
    assert_eq!(log.get_frontier().get(0), 2);
}

#[test]
fn frontier_matches_slow_recomputation() {
    let mut log = OpLog::new();
    let a = log.get_or_create_agent_id("alice");
    let b = log.get_or_create_agent_id("bob");
    log.push_insert_at(a, &[ROOT_TIME], 0, "hi");
    log.push_insert_at(b, &[ROOT_TIME], 0, "yo");
    log.push_delete_at(a, &[1, 3], 0, 1);
    let slow = log.dbg_get_frontier_inefficiently();
    let fast = log.get_frontier();
    assert_eq!(slow.as_vec(), fast.as_vec());
    // The empty log's frontier is the ROOT sentinel, and the slow walk
    // agrees there too.
    let empty = OpLog::new();
    assert_eq!(
        empty.dbg_get_frontier_inefficiently().as_vec(),
        vec![ROOT_TIME]
    );
}

#[test]
fn parents_mid_run_are_the_previous_time() {
    let mut log = OpLog::new();
    let seph = log.get_or_create_agent_id("seph");
    log.push_insert_at(seph, &[ROOT_TIME], 0, "abc");
    assert_eq!(log.parents_at_time(0), vec![ROOT_TIME]);
    assert_eq!(log.parents_at_time(1), vec![0]);
    assert_eq!(log.parents_at_time(2), vec![1]);
}

#[test]
fn unequal_logs_differ() {
    let mut a = OpLog::new();
    let sa = a.get_or_create_agent_id("seph");
    a.push_insert(sa, 0, "x");

    // Different content.
    let mut b = OpLog::new();
    let sb = b.get_or_create_agent_id("seph");
    b.push_insert(sb, 0, "y");
    assert!(!is_eq(&a, &b));

    // Different position.
    let mut c = OpLog::new();
    let sc = c.get_or_create_agent_id("seph");
    c.push_insert(sc, 0, "x");
    c.push_insert(sc, 0, "z");
    let mut d = OpLog::new();
    let sd = d.get_or_create_agent_id("seph");
    d.push_insert(sd, 0, "x");
    d.push_insert(sd, 1, "z");
    assert!(!is_eq(&c, &d));

    // Different agent name.
    let mut e = OpLog::new();
    let se = e.get_or_create_agent_id("mike");
    e.push_insert(se, 0, "x");
    assert!(!is_eq(&a, &e));
}

#[test]
fn agent_spans_truncate_at_run_boundaries() {
    let mut log = OpLog::new();
    let a = log.get_or_create_agent_id("alice");
    let b = log.get_or_create_agent_id("bob");
    log.push_insert_at(a, &[ROOT_TIME], 0, "ab");
    log.push_insert_at(b, &[1], 0, "cd");
    let span = log.get_crdt_span(diamond_types::span::TimeSpan { start: 0, end: 4 });
    assert_eq!(span.agent, a);
    assert_eq!(span.seq_range.start, 0);
    assert_eq!(span.seq_range.end, 2);
    let span2 = log.get_crdt_span(diamond_types::span::TimeSpan { start: 2, end: 4 });
    assert_eq!(span2.agent, b);
    assert_eq!(span2.seq_range.start, 0);
    assert_eq!(span2.seq_range.end, 2);
}

#[test]
fn next_seq_counts_per_agent() {
    let mut log = OpLog::new();
    let a = log.get_or_create_agent_id("alice");
    let b = log.get_or_create_agent_id("bob");
    assert!(log.client_data[a as usize].is_empty());
    log.push_insert_at(a, &[ROOT_TIME], 0, "abc");
    log.push_insert_at(b, &[2], 0, "d");
    assert_eq!(log.client_data[a as usize].get_next_seq(), 3);
    assert_eq!(log.client_data[b as usize].get_next_seq(), 1);
    assert!(!log.client_data[a as usize].is_empty());
}

#[test]
fn operation_runs_merge_in_storage() {
    let mut log = OpLog::new();
    let seph = log.get_or_create_agent_id("seph");
    // Consecutive inserts extend one stored run.
    log.push_insert(seph, 0, "a");
    log.push_insert(seph, 1, "b");
    log.push_insert(seph, 2, "c");
    assert_eq!(log.operations.0.len(), 1);
    assert_eq!(log.ins_content, "abc");
    // Repeated deletes at one position also merge.
    log.push_delete(seph, 0, 1);
    log.push_delete(seph, 0, 1);
    assert_eq!(log.operations.0.len(), 2);
}

#[test]
fn backspacing_merges_into_a_reversed_run() {
    let mut log = OpLog::new();
    let seph = log.get_or_create_agent_id("seph");
    log.push_insert(seph, 0, "abc");
    // Delete the text right to left, one unit at a time.
    log.push_delete(seph, 2, 1);
    log.push_delete(seph, 1, 1);
    log.push_delete(seph, 0, 1);
    assert_eq!(log.operations.0.len(), 2);
    let del_run = &log.operations.0[1].1;
    assert!(!del_run.span.fwd);
    assert_eq!(del_run.span.span.start, 0);
    assert_eq!(del_run.span.span.end, 3);
}
