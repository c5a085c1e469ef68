//! The contract every backward operation meets to take part in a pass.
use vstd::prelude::*;

use burn_common::id::StreamId;

use crate::node::{NodeID, Parent};
use crate::traversal::{parent_ids, TraversalItem};

verus! {

/// Backward step for reverse mode autodiff.
///
/// `G` is the gradient accumulator and `C` the checkpointer that a step
/// works on when it runs; the walk never looks into either. As with
/// `TraversalItem`, a verified implementation defines `node_id` and
/// `parent_ids`, and one in plain Rust may leave them out.
pub trait Step<G, C>: Send + core::fmt::Debug {
    /// The node this step computes a gradient for.
    open spec fn node_id(&self) -> NodeID {
        arbitrary()
    }

    /// The nodes whose gradients this step's result feeds, in order.
    open spec fn parent_ids(&self) -> Seq<NodeID> {
        arbitrary()
    }

    /// Executes the step and consumes it.
    fn step(self: Box<Self>, grads: &mut G, checkpointer: &mut C);

    /// Depth of the operation relative to the first node added to a graph.
    fn depth(&self) -> usize;

    /// The node associated to the step.
    fn node(&self) -> (r: NodeID)
        ensures
            r == self.node_id(),
    ;

    /// The parents of the node associated to the step.
    fn parents(&self) -> (r: Vec<NodeID>)
        ensures
            r@ == self.parent_ids(),
    ;

    /// The parent streams of the node associated to the step, one per parent.
    fn parent_streams(&self) -> (r: Vec<StreamId>)
        ensures
            r@.len() == self.parent_ids().len(),
    ;
}

/// A boxed step with its node id and its edges read off once, so that the
/// walk can take it.
pub struct StepNode<S> {
    pub node: NodeID,
    pub parents: Vec<Parent>,
    pub step: Box<S>,
}

impl<S> StepNode<S> {
    /// Reads the step's node and pairs each parent with its stream.
    pub fn new<G, C>(step: Box<S>) -> (r: Self) where S: Step<G, C>
        ensures
            r.node == step.node_id(),
            parent_ids(r.parents@) == step.parent_ids(),
            r.step == step,
    {
        let node = step.node();
        let ids = step.parents();
        let streams = step.parent_streams();
        let mut parents: Vec<Parent> = Vec::new();
        let mut i: usize = 0;
        while i < ids.len()
            invariant
                ids@ == step.parent_ids(),
                streams@.len() == ids@.len(),
                i <= ids@.len(),
                parent_ids(parents@) == ids@.subrange(0, i as int),
            decreases ids@.len() - i,
        {
            proof {
                assert(parent_ids(parents@.push(Parent { id: ids@[i as int], stream: streams@[i as int] }))
                    =~= parent_ids(parents@).push(ids@[i as int]));
                assert(ids@.subrange(0, i + 1) =~= ids@.subrange(0, i as int).push(ids@[i as int]));
            }
            parents.push(Parent::new(ids[i], streams[i]));
            i += 1;
        }
        proof {
            assert(ids@.subrange(0, i as int) =~= ids@);
        }
        StepNode { node, parents, step }
    }

    /// Hands the step back, to be run.
    pub fn into_step(self) -> (r: Box<S>)
        ensures
            r == self.step,
    {
        self.step
    }
}

impl<S> TraversalItem for StepNode<S> {
    open spec fn node(&self) -> NodeID {
        self.node
    }

    open spec fn edges(&self) -> Seq<Parent> {
        self.parents@
    }

    fn id(&self) -> (r: NodeID) {
        self.node
    }

    fn parents(&self) -> (r: &[Parent]) {
        self.parents.as_slice()
    }
}

} // verus!
