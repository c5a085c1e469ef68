use std::collections::HashMap;

use burn_common::id::StreamId;
use burn_graph::{BreadthFirstSearch, NodeID, Parent, Step, StepNode, TraversalItem};

#[derive(Debug, Clone, PartialEq)]
struct Op {
    id: NodeID,
    parents: Vec<Parent>,
}

impl TraversalItem for Op {
    fn id(&self) -> NodeID {
        self.id
    }

    fn parents(&self) -> &[Parent] {
        &self.parents
    }
}

fn op(id: NodeID, parents: &[NodeID]) -> Op {
    Op {
        id,
        parents: parents
            .iter()
            .map(|p| Parent::new(*p, StreamId { value: 0 }))
            .collect(),
    }
}

fn registry(ops: Vec<Op>) -> HashMap<NodeID, Op> {
    ops.into_iter().map(|o| (o.id, o)).collect()
}

fn run(root: Op, steps: &mut HashMap<NodeID, Op>) -> Vec<(NodeID, Op)> {
    let mut seen = Vec::new();
    BreadthFirstSearch.traverse(root.id, root, steps, |id, step| seen.push((id, step)));
    seen
}

const A: NodeID = 1;
const B: NodeID = 2;
const C: NodeID = 3;
const D: NodeID = 4;
const Z: NodeID = 26;

fn diamond() -> (Op, HashMap<NodeID, Op>) {
    let steps = registry(vec![op(A, &[]), op(B, &[A]), op(C, &[A])]);
    (op(D, &[B, C]), steps)
}

#[test]
fn diamond_collapses_to_one_visit() {
    let (root, mut steps) = diamond();
    let seen = run(root.clone(), &mut steps);
    let ids: Vec<NodeID> = seen.iter().map(|(id, _)| *id).collect();
    // Last discovered first: C before B, and A right after C.
    assert_eq!(ids, vec![D, C, A, B]);
    assert_eq!(seen[0].1, root);
    assert_eq!(ids.iter().filter(|id| **id == A).count(), 1);
    for (id, step) in &seen {
        assert_eq!(*id, step.id);
    }
    assert!(steps.is_empty());
}

#[test]
fn root_is_reported_first() {
    let steps_ops = vec![op(A, &[B]), op(B, &[])];
    let mut steps = registry(steps_ops);
    let root = op(D, &[A]);
    let mut first = None;
    let mut calls = 0;
    BreadthFirstSearch.traverse(D, root.clone(), &mut steps, |id, step| {
        if calls == 0 {
            first = Some((id, step));
        }
        calls += 1;
    });
    assert_eq!(first, Some((D, root)));
    assert_eq!(calls, 3);
}

#[test]
fn root_without_parents_is_reported_alone() {
    let mut steps = registry(vec![op(A, &[]), op(B, &[A])]);
    let seen = run(op(D, &[]), &mut steps);
    assert_eq!(seen.len(), 1);
    assert_eq!(seen[0].0, D);
    assert_eq!(steps.len(), 2);
}

#[test]
fn missing_parent_is_skipped() {
    let mut steps = registry(vec![op(A, &[99]), op(B, &[A, 98])]);
    let seen = run(op(D, &[B, 97]), &mut steps);
    let ids: Vec<NodeID> = seen.iter().map(|(id, _)| *id).collect();
    assert_eq!(ids, vec![D, B, A]);
    assert!(!ids.contains(&99) && !ids.contains(&98) && !ids.contains(&97));
    assert!(steps.is_empty());
}

#[test]
fn unreachable_step_stays_in_registry() {
    let (root, mut steps) = diamond();
    let unrelated = op(Z, &[A]);
    steps.insert(Z, unrelated.clone());
    let seen = run(root, &mut steps);
    let ids: Vec<NodeID> = seen.iter().map(|(id, _)| *id).collect();
    assert_eq!(ids.len(), 4);
    assert!(!ids.contains(&Z));
    assert_eq!(steps.len(), 1);
    assert_eq!(steps.get(&Z), Some(&unrelated));
    for id in ids {
        assert!(!steps.contains_key(&id));
    }
}

#[test]
fn cycle_terminates_with_each_node_once() {
    let mut steps = registry(vec![op(A, &[B]), op(B, &[A])]);
    let seen = run(op(D, &[A]), &mut steps);
    let ids: Vec<NodeID> = seen.iter().map(|(id, _)| *id).collect();
    assert_eq!(ids, vec![D, A, B]);
    assert!(steps.is_empty());
}

#[test]
fn edge_back_to_root_does_not_report_it_again() {
    let mut steps = registry(vec![op(A, &[D]), op(B, &[A, D])]);
    let seen = run(op(D, &[B, A]), &mut steps);
    let ids: Vec<NodeID> = seen.iter().map(|(id, _)| *id).collect();
    assert_eq!(ids, vec![D, A, B]);
}

#[test]
fn every_reachable_node_is_reported_exactly_once() {
    // A lattice where most nodes are reachable along several paths.
    let mut ops = Vec::new();
    for i in 1..=20u64 {
        let parents: Vec<NodeID> = [i + 1, i + 2, i + 5].iter().copied().filter(|p| *p <= 20).collect();
        ops.push(op(i, &parents));
    }
    ops.push(op(50, &[1]));
    let mut steps = registry(ops);
    let seen = run(op(100, &[1, 3]), &mut steps);
    let mut ids: Vec<NodeID> = seen.iter().map(|(id, _)| *id).collect();
    assert_eq!(ids[0], 100);
    ids.sort();
    let mut expected: Vec<NodeID> = (1..=20).collect();
    expected.push(100);
    assert_eq!(ids, expected);
    assert_eq!(steps.len(), 1);
    assert!(steps.contains_key(&50));
}

#[test]
fn walk_hands_out_what_traverse_reports() {
    let (root, mut steps) = diamond();
    steps.insert(Z, op(Z, &[]));
    let seen = run(root.clone(), &mut steps.clone());
    let walked = BreadthFirstSearch.walk(D, root, &mut steps);
    assert_eq!(walked, seen);
    assert_eq!(steps.len(), 1);
    assert!(steps.contains_key(&Z));
}

#[test]
fn parent_nodes_follow_the_edges() {
    let o = Op {
        id: A,
        parents: vec![
            Parent::new(C, StreamId { value: 3 }),
            Parent::new(B, StreamId { value: 7 }),
            Parent::new(C, StreamId { value: 1 }),
        ],
    };
    assert_eq!(o.parent_nodes(), vec![C, B, C]);
    assert_eq!(op(A, &[]).parent_nodes(), Vec::<NodeID>::new());
}

#[test]
fn parent_keeps_its_stream() {
    let p = Parent::new(B, StreamId { value: 5 });
    assert_eq!(p.id, B);
    assert_eq!(p.stream, StreamId { value: 5 });
}

#[derive(Debug)]
struct Scale {
    node: NodeID,
    parents: Vec<NodeID>,
    factor: i64,
}

impl Step<Vec<(NodeID, i64)>, u32> for Scale {
    fn step(self: Box<Self>, grads: &mut Vec<(NodeID, i64)>, checkpointer: &mut u32) {
        for p in &self.parents {
            grads.push((*p, self.factor));
        }
        *checkpointer += 1;
    }

    fn depth(&self) -> usize {
        self.parents.len()
    }

    fn node(&self) -> NodeID {
        self.node
    }

    fn parents(&self) -> Vec<NodeID> {
        self.parents.clone()
    }

    fn parent_streams(&self) -> Vec<StreamId> {
        self.parents.iter().map(|_| StreamId { value: 0 }).collect()
    }
}

#[test]
fn step_runs_once_and_is_consumed() {
    let s: Box<Scale> = Box::new(Scale { node: C, parents: vec![A, B], factor: 3 });
    assert_eq!(s.node(), C);
    assert_eq!(s.parents(), vec![A, B]);
    assert_eq!(s.parent_streams().len(), 2);
    assert_eq!(s.depth(), 2);
    let mut grads = Vec::new();
    let mut runs = 0u32;
    s.step(&mut grads, &mut runs);
    assert_eq!(grads, vec![(A, 3), (B, 3)]);
    assert_eq!(runs, 1);
}

fn scale(node: NodeID, parents: &[NodeID], factor: i64) -> StepNode<Scale> {
    StepNode::new::<Vec<(NodeID, i64)>, u32>(Box::new(Scale { node, parents: parents.to_vec(), factor }))
}

#[test]
fn boxed_steps_are_walked_and_each_runs_once() {
    let node = scale(C, &[A, B], 2);
    assert_eq!(node.id(), C);
    assert_eq!(node.parent_nodes(), vec![A, B]);
    assert_eq!(node.parents()[1].stream, StreamId { value: 0 });

    let mut steps: HashMap<NodeID, StepNode<Scale>> = HashMap::new();
    steps.insert(A, scale(A, &[], 5));
    steps.insert(B, scale(B, &[A], 3));
    steps.insert(C, scale(C, &[A], 7));
    let root = scale(D, &[B, C], 1);
    let mut grads: Vec<(NodeID, i64)> = Vec::new();
    let mut runs = 0u32;
    let mut order = Vec::new();
    BreadthFirstSearch.traverse(D, root, &mut steps, |id, item| {
        order.push(id);
        item.into_step().step(&mut grads, &mut runs);
    });
    assert_eq!(order, vec![D, C, A, B]);
    assert_eq!(runs, 4);
    assert_eq!(grads, vec![(B, 1), (C, 1), (A, 7), (A, 3)]);
    assert!(steps.is_empty());
}
