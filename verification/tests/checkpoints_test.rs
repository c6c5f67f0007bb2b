use rge_core::checkpoints::{CadGraph, CheckpointError, CheckpointHistory, CheckpointId};

/// A stand-in graph: the list of its node payloads.
type Nodes = Vec<u32>;

fn node_count(g: &Nodes) -> usize {
    g.len()
}

#[test]
fn commit_advances_head() {
    let mut cad: CadGraph<Nodes> = CadGraph::new(Vec::new());
    assert_eq!(cad.head(), CheckpointId(0));
    cad.begin_operation().expect("begin");
    let c1 = cad.commit("first".to_string()).expect("commit");
    assert_eq!(c1, CheckpointId(1));
    assert_eq!(cad.head(), CheckpointId(1));
    cad.begin_operation().expect("begin2");
    let c2 = cad.commit("second".to_string()).expect("commit2");
    assert_eq!(c2, CheckpointId(2));
    assert_eq!(cad.head(), CheckpointId(2));
}

#[test]
fn rollback_restores_graph() {
    let mut cad: CadGraph<Nodes> = CadGraph::new(Vec::new());
    assert_eq!(node_count(cad.graph()), 0);
    cad.begin_operation().expect("begin");
    cad.graph_mut().expect("mut").push(1);
    assert_eq!(node_count(cad.graph()), 1);
    cad.rollback().expect("rollback");
    assert_eq!(node_count(cad.graph()), 0, "rollback must clear the cuboid");
}

#[test]
fn commit_persists_changes() {
    let mut cad: CadGraph<Nodes> = CadGraph::new(Vec::new());
    cad.begin_operation().expect("begin");
    cad.graph_mut().expect("mut").push(1);
    cad.commit("with cuboid".to_string()).expect("commit");
    assert_eq!(node_count(cad.graph()), 1, "commit persists the cuboid");
}

#[test]
fn restore_to_earlier_checkpoint() {
    let mut cad: CadGraph<Nodes> = CadGraph::new(Vec::new());
    cad.begin_operation().expect("begin1");
    cad.graph_mut().expect("mut1").push(1);
    let c1 = cad.commit("C1: cuboid".to_string()).expect("commit1");
    assert_eq!(node_count(cad.graph()), 1);

    cad.begin_operation().expect("begin2");
    cad.graph_mut().expect("mut2").push(2);
    cad.graph_mut().expect("mut2b").push(3);
    let _c2 = cad.commit("C2: cuboid+transform".to_string()).expect("commit2");
    assert_eq!(node_count(cad.graph()), 3);

    cad.restore_to(c1).expect("restore");
    assert_eq!(cad.head(), c1);
    assert_eq!(node_count(cad.graph()), 1);
}

#[test]
fn restore_to_unknown_id_errors() {
    let mut cad: CadGraph<Nodes> = CadGraph::new(Vec::new());
    let err = cad.restore_to(CheckpointId(999)).unwrap_err();
    assert_eq!(err, CheckpointError::CheckpointNotFound(CheckpointId(999)));
}

#[test]
fn mutation_outside_operation_errors() {
    let mut cad: CadGraph<Nodes> = CadGraph::new(Vec::new());
    let err = cad.graph_mut().unwrap_err();
    assert_eq!(err, CheckpointError::MutationOutsideOperation);
}

#[test]
fn commit_without_begin_errors() {
    let mut cad: CadGraph<Nodes> = CadGraph::new(Vec::new());
    let err = cad.commit("no-begin".to_string()).unwrap_err();
    assert_eq!(err, CheckpointError::NotInProgress);
}

#[test]
fn rollback_without_begin_errors() {
    let mut cad: CadGraph<Nodes> = CadGraph::new(Vec::new());
    let err = cad.rollback().unwrap_err();
    assert_eq!(err, CheckpointError::NotInProgress);
}

#[test]
fn begin_twice_and_restore_during_operation_are_refused() {
    let mut cad: CadGraph<Nodes> = CadGraph::new(vec![5]);
    cad.begin_operation().expect("begin");
    assert_eq!(cad.begin_operation().unwrap_err(), CheckpointError::AlreadyInProgress);
    assert_eq!(
        cad.restore_to(CheckpointId(0)).unwrap_err(),
        CheckpointError::InProgressMustBeResolved
    );
    assert!(cad.history().is_in_progress());
}

#[test]
fn history_records_parents_and_labels() {
    let mut cad: CadGraph<Nodes> = CadGraph::new(Vec::new());
    cad.begin_operation().unwrap();
    cad.graph_mut().unwrap().push(10);
    let c1 = cad.commit("one".to_string()).unwrap();
    cad.restore_to(CheckpointId(0)).unwrap();
    cad.begin_operation().unwrap();
    let c2 = cad.commit("branch".to_string()).unwrap();
    let h = cad.history();
    assert_eq!(h.len(), 3);
    assert!(!h.is_empty());
    assert_eq!(h.ids(), vec![CheckpointId(0), c1, c2]);
    let root = h.checkpoint(CheckpointId(0)).unwrap();
    assert_eq!(root.label, "<root>");
    assert_eq!(root.parent, None);
    let first = h.checkpoint(c1).unwrap();
    assert_eq!(first.parent, Some(CheckpointId(0)));
    assert_eq!(first.snapshot, vec![10]);
    let second = h.checkpoint(c2).unwrap();
    assert_eq!(second.parent, Some(CheckpointId(0)), "restored head is the parent");
    assert_eq!(second.snapshot, Vec::<u32>::new());
    assert_eq!(second.label, "branch");
    assert!(h.checkpoint(CheckpointId(3)).is_none());
}

#[test]
fn fresh_history_is_empty() {
    let h: CheckpointHistory<u8> = CheckpointHistory::new(0);
    assert!(h.is_empty());
    assert_eq!(h.len(), 1);
    assert_eq!(h.head(), CheckpointId(0));
    assert!(!h.is_in_progress());
    assert_eq!(CheckpointId(3).text(), "ckpt:3");
}

#[test]
fn history_iter_lists_checkpoints_in_id_order() {
    let mut cad: CadGraph<Nodes> = CadGraph::new(Vec::new());
    cad.begin_operation().expect("begin");
    cad.graph_mut().expect("mut").push(7);
    cad.commit("one".to_string()).expect("commit");
    let all = cad.history().iter();
    assert_eq!(all.len(), 2);
    assert_eq!(all[0].0, CheckpointId(0));
    assert_eq!(all[1].0, CheckpointId(1));
    assert_eq!(all[1].1.label, "one");
    assert_eq!(all[1].1.snapshot, vec![7]);
    assert_eq!(all[1].1.parent, Some(CheckpointId(0)));
}
