use graphlib2::EqVerdict;
use graphlib2::NodeKey;
use graphlib2::SorterError;
use graphlib2::TopologicalSorter;

fn key(i: u64) -> NodeKey {
    NodeKey::new(i, i as i64, true)
}

#[test]
fn diamond_pull_protocol() {
    // graph {A: [], B: [A], C: [A], D: [B, C]}
    let a = key(1);
    let b = key(2);
    let c = key(3);
    let d = key(4);
    let mut s = TopologicalSorter::new();
    s.add(a, vec![]).unwrap();
    s.add(b, vec![a]).unwrap();
    s.add(c, vec![a]).unwrap();
    s.add(d, vec![b, c]).unwrap();
    s.prepare().unwrap();
    assert_eq!(s.get_ready().unwrap(), vec![a]);
    s.done(&vec![a]).unwrap();
    assert_eq!(s.get_ready().unwrap(), vec![b, c]);
    s.done(&vec![b, c]).unwrap();
    assert_eq!(s.get_ready().unwrap(), vec![d]);
    s.done(&vec![d]).unwrap();
    assert_eq!(s.is_active().unwrap(), false);
}

#[test]
fn two_cycle_detected() {
    // graph {A: [B], B: [A]}
    let a = key(1);
    let b = key(2);
    let mut s = TopologicalSorter::new();
    s.add(a, vec![b]).unwrap();
    s.add(b, vec![a]).unwrap();
    match s.prepare() {
        Err(SorterError::CycleDetected(path)) => {
            assert_eq!(path.len(), 3);
            assert_eq!(path[0], path[2]);
            assert!(path[0] == a || path[0] == b);
        }
        other => panic!("expected a cycle, got {:?}", other),
    }
    // the graph is untouched: the cycle can be broken and sealing retried
    let c = key(3);
    s.add(c, vec![]).unwrap();
}

#[test]
fn self_loop_cycle() {
    let a = key(1);
    let mut s = TopologicalSorter::new();
    s.add(a, vec![a]).unwrap();
    match s.prepare() {
        Err(SorterError::CycleDetected(path)) => {
            assert_eq!(path.len(), 2);
            assert_eq!(path[0], a);
            assert_eq!(path[1], a);
        }
        other => panic!("expected a cycle, got {:?}", other),
    }
}

#[test]
fn ready_after_prepare_then_empty() {
    let a = key(1);
    let b = key(2);
    let c = key(3);
    let mut s = TopologicalSorter::new();
    s.add(b, vec![a]).unwrap();
    s.add(c, vec![]).unwrap();
    s.prepare().unwrap();
    // exactly the zero-dependency nodes, in id order
    assert_eq!(s.get_ready().unwrap(), vec![a, c]);
    // again, before any done: empty
    assert_eq!(s.get_ready().unwrap(), Vec::<NodeKey>::new());
    assert_eq!(s.is_active().unwrap(), true);
}

#[test]
fn done_errors() {
    let a = key(1);
    let b = key(2);
    let mut s = TopologicalSorter::new();
    s.add(b, vec![a]).unwrap();
    s.prepare().unwrap();
    // b was never handed out
    assert_eq!(s.done(&vec![b]), Err(SorterError::NodeNotReady));
    // a is ready but not handed out yet either
    assert_eq!(s.done(&vec![a]), Err(SorterError::NodeNotReady));
    let ready = s.get_ready().unwrap();
    assert_eq!(ready, vec![a]);
    s.done(&vec![a]).unwrap();
    // twice: already done
    assert_eq!(s.done(&vec![a]), Err(SorterError::NodeAlreadyDone));
    // unknown key
    assert_eq!(s.done(&vec![key(99)]), Err(SorterError::UnknownNode));
}

#[test]
fn not_prepared_and_already_prepared() {
    let a = key(1);
    let mut s = TopologicalSorter::new();
    s.add(a, vec![]).unwrap();
    assert_eq!(s.is_active(), Err(SorterError::NotPrepared));
    assert_eq!(s.get_ready(), Err(SorterError::NotPrepared));
    assert_eq!(s.done(&vec![a]), Err(SorterError::NotPrepared));
    s.prepare().unwrap();
    assert_eq!(s.prepare(), Err(SorterError::AlreadyPrepared));
    assert_eq!(s.add(key(2), vec![]), Err(SorterError::AlreadyPrepared));
    assert_eq!(s.static_order(), Err(SorterError::AlreadyPrepared));
}

#[test]
fn static_order_diamond() {
    let a = key(1);
    let b = key(2);
    let c = key(3);
    let d = key(4);
    let mut s = TopologicalSorter::new();
    s.add(d, vec![b, c]).unwrap();
    s.add(b, vec![a]).unwrap();
    s.add(c, vec![a]).unwrap();
    let order = s.static_order().unwrap();
    assert_eq!(order.len(), 4);
    let pos = |k: NodeKey| order.iter().position(|x| *x == k).unwrap();
    assert!(pos(a) < pos(b));
    assert!(pos(a) < pos(c));
    assert!(pos(b) < pos(d));
    assert!(pos(c) < pos(d));
    assert_eq!(s.is_active().unwrap(), false);
}

#[test]
fn static_order_empty_graph() {
    let mut s = TopologicalSorter::new();
    let order = s.static_order().unwrap();
    assert_eq!(order, Vec::<NodeKey>::new());
}

#[test]
fn static_order_cycle_fails() {
    let a = key(1);
    let b = key(2);
    let mut s = TopologicalSorter::new();
    s.add(a, vec![b]).unwrap();
    s.add(b, vec![a]).unwrap();
    match s.static_order() {
        Err(SorterError::CycleDetected(path)) => {
            assert_eq!(path.len(), 3);
            assert_eq!(path[0], path[2]);
        }
        other => panic!("expected a cycle, got {:?}", other),
    }
}

#[test]
fn copy_isolated_after_prepare() {
    let a = key(1);
    let b = key(2);
    let mut s = TopologicalSorter::new();
    s.add(b, vec![a]).unwrap();
    s.prepare().unwrap();
    let mut t = s.copy();
    // mutate the copy to completion
    let ready = t.get_ready().unwrap();
    assert_eq!(ready, vec![a]);
    t.done(&vec![a]).unwrap();
    let next = t.get_ready().unwrap();
    t.done(&next).unwrap();
    assert_eq!(t.is_active().unwrap(), false);
    // the original is unaffected
    assert_eq!(s.is_active().unwrap(), true);
    assert_eq!(s.get_ready().unwrap(), vec![a]);
}

#[test]
fn copy_of_building_sorter() {
    let a = key(1);
    let b = key(2);
    let mut s = TopologicalSorter::new();
    s.add(b, vec![a]).unwrap();
    let mut t = s.copy();
    // adding to the copy does not show in the original
    t.add(key(3), vec![]).unwrap();
    let order_t = t.static_order().unwrap();
    assert_eq!(order_t.len(), 3);
    let order_s = s.static_order().unwrap();
    assert_eq!(order_s, vec![a, b]);
}

#[test]
fn duplicate_dependency_counts_twice() {
    // b depends on a listed twice: both occurrences must retire at once.
    let a = key(1);
    let b = key(2);
    let mut s = TopologicalSorter::new();
    s.add(b, vec![a, a]).unwrap();
    s.prepare().unwrap();
    assert_eq!(s.get_ready().unwrap(), vec![a]);
    s.done(&vec![a]).unwrap();
    assert_eq!(s.get_ready().unwrap(), vec![b]);
}

#[test]
fn done_by_id_and_get_ids() {
    let a = key(1);
    let b = key(2);
    let mut s = TopologicalSorter::new();
    s.add(b, vec![a]).unwrap();
    let ids = s.get_ids(&vec![a, b]).unwrap();
    assert_eq!(ids, vec![1usize, 0usize]);
    assert_eq!(s.get_ids(&vec![key(9)]), Err(SorterError::UnknownNode));
    s.prepare().unwrap();
    let ready = s.get_ready().unwrap();
    assert_eq!(ready, vec![a]);
    s.done_by_id(&vec![1usize]).unwrap();
    assert_eq!(s.get_ready().unwrap(), vec![b]);
    assert_eq!(s.done_by_id(&vec![7usize]), Err(SorterError::UnknownNode));
}

#[test]
fn batched_done_keeps_prefix_on_error() {
    let a = key(1);
    let b = key(2);
    let c = key(3);
    let mut s = TopologicalSorter::new();
    s.add(a, vec![]).unwrap();
    s.add(b, vec![]).unwrap();
    s.add(c, vec![a, b]).unwrap();
    s.prepare().unwrap();
    let ready = s.get_ready().unwrap();
    assert_eq!(ready, vec![a, b]);
    // a is marked done, then the batch stops on the unready c;
    // a's mutation stays.
    assert_eq!(s.done(&vec![a, c]), Err(SorterError::NodeNotReady));
    assert_eq!(s.done(&vec![a]), Err(SorterError::NodeAlreadyDone));
    s.done(&vec![b]).unwrap();
    assert_eq!(s.get_ready().unwrap(), vec![c]);
}

#[test]
fn key_equality_layers() {
    let a = NodeKey::new(1, 10, true);
    let a_again = NodeKey::new(1, 10, true);
    let b = NodeKey::new(2, 10, true);
    let nan_like = NodeKey::new(3, 7, false);
    // identical idents: equal without consulting the delegate
    assert_eq!(a.eq_probe(&a_again), EqVerdict::Equal);
    assert!(a.equals_with(&a_again, false));
    // a non-reflexive value equals nothing else, delegate never asked
    assert_eq!(a.eq_probe(&nan_like), EqVerdict::Unequal);
    assert!(!a.equals_with(&nan_like, true));
    assert_eq!(nan_like.eq_probe(&nan_like), EqVerdict::Equal);
    // distinct reflexive values: one delegated comparison decides
    assert_eq!(a.eq_probe(&b), EqVerdict::Delegate);
    assert!(a.equals_with(&b, true));
    assert!(!a.equals_with(&b, false));
    assert_eq!(a.hash_code(), 10);
}

#[test]
fn is_active_lifecycle() {
    let a = key(1);
    let b = key(2);
    let mut s = TopologicalSorter::new();
    s.add(b, vec![a]).unwrap();
    s.prepare().unwrap();
    // ready work queued: active
    assert_eq!(s.is_active().unwrap(), true);
    let ready = s.get_ready().unwrap();
    // handed out, not yet done: still active
    assert_eq!(s.is_active().unwrap(), true);
    s.done(&ready).unwrap();
    // b became ready: active again
    assert_eq!(s.is_active().unwrap(), true);
    let next = s.get_ready().unwrap();
    s.done(&next).unwrap();
    assert_eq!(s.is_active().unwrap(), false);
}

#[test]
fn remove_cascades_to_dependencies() {
    // graph {A: [], B: [A], C: [A], D: [B, C]}: removing B also removes
    // A (B's dependency); C loses its pending dependency on A and
    // becomes ready; D keeps waiting for C.
    let a = key(1);
    let b = key(2);
    let c = key(3);
    let d = key(4);
    let mut s = TopologicalSorter::new();
    s.add(a, vec![]).unwrap();
    s.add(b, vec![a]).unwrap();
    s.add(c, vec![a]).unwrap();
    s.add(d, vec![b, c]).unwrap();
    s.prepare().unwrap();
    s.remove(&vec![b]).unwrap();
    // A was removed with B, so the queue no longer offers it; C is the
    // newly readied node.
    assert_eq!(s.get_ready().unwrap(), vec![c]);
    s.done(&vec![c]).unwrap();
    assert_eq!(s.get_ready().unwrap(), vec![d]);
    s.done(&vec![d]).unwrap();
    assert_eq!(s.is_active().unwrap(), false);
}

#[test]
fn remove_errors() {
    let a = key(1);
    let b = key(2);
    let mut s = TopologicalSorter::new();
    s.add(b, vec![a]).unwrap();
    // before prepare
    assert_eq!(s.remove(&vec![a]), Err(SorterError::NotPrepared));
    s.prepare().unwrap();
    // unknown key, nothing changed
    assert_eq!(s.remove(&vec![key(9)]), Err(SorterError::UnknownNode));
    // removing a removed node again is unknown too
    s.remove(&vec![a]).unwrap();
    assert_eq!(s.remove(&vec![a]), Err(SorterError::UnknownNode));
    // after the first get_ready, removal is barred
    let mut t = TopologicalSorter::new();
    t.add(b, vec![a]).unwrap();
    t.prepare().unwrap();
    t.get_ready().unwrap();
    assert_eq!(t.remove(&vec![b]), Err(SorterError::IterationStarted));
    assert_eq!(t.remove_by_id(&vec![1usize]), Err(SorterError::IterationStarted));
}

#[test]
fn remove_by_id_reorders_queue() {
    // x and y are both ready; removing x drops it from the queue and
    // readies z, which queues behind the survivor y.
    let x = key(1);
    let y = key(2);
    let z = key(3);
    let mut s = TopologicalSorter::new();
    s.add(x, vec![]).unwrap();
    s.add(y, vec![]).unwrap();
    s.add(z, vec![x]).unwrap();
    s.prepare().unwrap();
    let ids = s.get_ids(&vec![x]).unwrap();
    s.remove_by_id(&ids).unwrap();
    assert_eq!(s.get_ready().unwrap(), vec![y, z]);
}

#[test]
fn cycle_report_is_reproducible() {
    // two sorters built by identical add sequences report the same cycle
    let build = || {
        let mut s = TopologicalSorter::new();
        s.add(key(1), vec![key(2)]).unwrap();
        s.add(key(2), vec![key(3)]).unwrap();
        s.add(key(3), vec![key(1)]).unwrap();
        s.add(key(4), vec![key(2)]).unwrap();
        s
    };
    let report = |mut s: TopologicalSorter| match s.prepare() {
        Err(SorterError::CycleDetected(path)) => path,
        other => panic!("expected a cycle, got {:?}", other),
    };
    let first = report(build());
    let second = report(build());
    assert_eq!(first, second);
    // and the report is a simple cycle
    assert_eq!(first[0], first[first.len() - 1]);
    for i in 0..first.len() - 1 {
        for j in (i + 1)..first.len() - 1 {
            assert_ne!(first[i], first[j]);
        }
    }
}
