//! The walk over a graph of backward steps, from a root back to its inputs.
use vstd::prelude::*;

use std::collections::{HashMap, HashSet};

use crate::node::{NodeID, Parent};

verus! {

/// The ids of the parents on a list of edges, in order.
pub open spec fn parent_ids(parents: Seq<Parent>) -> Seq<NodeID> {
    parents.map_values(|p: Parent| p.id)
}

/// What the walk needs of a step: who it is and which nodes it points back to.
///
/// `node` and `edges` describe an item to the verifier. A verified
/// implementation defines them; the defaults let an implementation in plain
/// Rust leave them out, and a walk over a generic item never relies on them.
pub trait TraversalItem {
    /// The node this item belongs to.
    open spec fn node(&self) -> NodeID {
        arbitrary()
    }

    /// The edges of this item, in order.
    open spec fn edges(&self) -> Seq<Parent> {
        arbitrary()
    }

    /// The node this item belongs to.
    fn id(&self) -> (r: NodeID)
        ensures
            r == self.node(),
    ;

    /// The edges back to the parents of this item.
    fn parents(&self) -> (r: &[Parent])
        ensures
            r@ == self.edges(),
    ;

    /// The ids of the parents, in the order of the edges.
    fn parent_nodes(&self) -> (r: Vec<NodeID>)
        ensures
            r@ == parent_ids(self.edges()),
    {
        let parents = self.parents();
        let mut out: Vec<NodeID> = Vec::new();
        let mut i: usize = 0;
        while i < parents.len()
            invariant
                parents@ == self.edges(),
                i <= parents@.len(),
                out@ == parent_ids(parents@.subrange(0, i as int)),
            decreases parents@.len() - i,
        {
            proof {
                let done = parents@.subrange(0, i as int);
                assert(parents@.subrange(0, i + 1) == done.push(parents@[i as int]));
            }
            out.push(parents[i].id);
            i += 1;
        }
        proof {
            assert(parents@.subrange(0, i as int) == parents@);
        }
        out
    }
}

/// The ids that an item points back to.
#[verifier::opaque]
pub open spec fn targets<I: TraversalItem>(item: I) -> Seq<NodeID> {
    parent_ids(item.edges())
}

/// Every step of a registry is filed under its own node.
pub open spec fn registry_wf<I: TraversalItem>(reg: Map<NodeID, I>) -> bool {
    forall|k: NodeID| #[trigger] reg.contains_key(k) ==> reg[k].node() == k
}

/// `path` starts at one of `start` and goes on, edge by edge, through steps
/// of `reg`.
pub open spec fn is_path<I: TraversalItem>(
    reg: Map<NodeID, I>,
    start: Seq<NodeID>,
    path: Seq<NodeID>,
) -> bool {
    &&& path.len() > 0
    &&& start.contains(path[0])
    &&& forall|i: int|
        #![trigger path[i]]
        0 <= i < path.len() - 1 ==> reg.contains_key(path[i]) && targets(reg[path[i]]).contains(
            path[i + 1],
        )
}

/// Some path from `start` through `reg` ends at `id`.
#[verifier::opaque]
pub open spec fn reachable<I: TraversalItem>(
    reg: Map<NodeID, I>,
    start: Seq<NodeID>,
    id: NodeID,
) -> bool {
    exists|path: Seq<NodeID>| #[trigger] is_path(reg, start, path) && path.last() == id
}

/// The registered nodes that a walk entering at `start` reaches.
pub open spec fn reached<I: TraversalItem>(reg: Map<NodeID, I>, start: Seq<NodeID>) -> Set<
    NodeID,
> {
    Set::new(|id: NodeID| reg.contains_key(id) && reachable(reg, start, id))
}

/// The node ids of a list of reported steps, in order.
pub open spec fn reported_ids<I>(r: Seq<(NodeID, I)>) -> Seq<NodeID> {
    r.map_values(|p: (NodeID, I)| p.0)
}

/// The `i`-th reported step is a parent of one reported before it.
pub open spec fn found_at<I: TraversalItem>(r: Seq<(NodeID, I)>, i: int) -> bool {
    exists|j: int| 0 <= j < i && #[trigger] targets(r[j].1).contains(r[i].0)
}

/// Each reported step after the first is a parent of one reported before it.
pub open spec fn found_before<I: TraversalItem>(r: Seq<(NodeID, I)>) -> bool {
    forall|i: int| 1 <= i < r.len() ==> #[trigger] found_at(r, i)
}

/// What a walk from the root `root_id`, with its step `root_step`, over the
/// registry `before` hands out (`r`, in order) and leaves behind (`after`):
/// - the root first;
/// - after it each registered step that the root reaches, once, with its own
///   node id, and nothing else;
/// - each of those a parent of a step handed out before it;
/// - in the registry, exactly the steps that the root does not reach.
pub open spec fn walk_result<I: TraversalItem>(
    root_id: NodeID,
    root_step: I,
    before: Map<NodeID, I>,
    after: Map<NodeID, I>,
    r: Seq<(NodeID, I)>,
) -> bool {
    &&& r.len() >= 1
    &&& r[0] == (root_id, root_step)
    &&& reported_ids(r).no_duplicates()
    &&& forall|i: int|
        #![trigger r[i]]
        1 <= i < r.len() ==> before.contains_key(r[i].0) && r[i].1 == before[r[i].0]
    &&& forall|x: NodeID|
        reached(before, targets(root_step)).contains(x) <==> exists|i: int|
            1 <= i < r.len() && #[trigger] r[i].0 == x
    &&& found_before(r)
    &&& after == before.remove_keys(reached(before, targets(root_step)))
}

/// Every node that the root reaches through the registry, and the root
/// itself, is handed out exactly once.
pub proof fn lemma_reached_once<I: TraversalItem>(
    root_id: NodeID,
    root_step: I,
    before: Map<NodeID, I>,
    after: Map<NodeID, I>,
    r: Seq<(NodeID, I)>,
    x: NodeID,
)
    requires
        walk_result(root_id, root_step, before, after, r),
        x == root_id || reached(before, targets(root_step)).contains(x),
    ensures
        exists|i: int|
            0 <= i < r.len() && r[i].0 == x && forall|j: int|
                0 <= j < r.len() && #[trigger] r[j].0 == x ==> j == i,
{
    let ids = reported_ids(r);
    let i = if x == root_id {
        0
    } else {
        choose|i: int| 1 <= i < r.len() && #[trigger] r[i].0 == x
    };
    assert forall|j: int| 0 <= j < r.len() && #[trigger] r[j].0 == x implies j == i by {
        assert(ids[j] == r[j].0 && ids[i] == r[i].0);
    }
}

/// An id that the registry does not hold, other than the root, is never
/// handed out, whichever steps name it as a parent.
pub proof fn lemma_absent_never_reported<I: TraversalItem>(
    root_id: NodeID,
    root_step: I,
    before: Map<NodeID, I>,
    after: Map<NodeID, I>,
    r: Seq<(NodeID, I)>,
    x: NodeID,
)
    requires
        walk_result(root_id, root_step, before, after, r),
        !before.contains_key(x),
        x != root_id,
    ensures
        forall|i: int| 0 <= i < r.len() ==> #[trigger] r[i].0 != x,
{
}

/// Afterwards the registry holds no step that was handed out, and still
/// holds, unchanged, every step that the root does not reach.
pub proof fn lemma_drained<I: TraversalItem>(
    root_id: NodeID,
    root_step: I,
    before: Map<NodeID, I>,
    after: Map<NodeID, I>,
    r: Seq<(NodeID, I)>,
)
    requires
        walk_result(root_id, root_step, before, after, r),
        !before.contains_key(root_id),
    ensures
        forall|i: int| 0 <= i < r.len() ==> !after.contains_key(#[trigger] r[i].0),
        forall|k: NodeID|
            before.contains_key(k) && !reachable(before, targets(root_step), k)
                ==> #[trigger] after.contains_key(k) && after[k] == before[k],
{
    assert forall|i: int| 0 <= i < r.len() implies !after.contains_key(#[trigger] r[i].0) by {
        if i > 0 {
            assert(reached(before, targets(root_step)).contains(r[i].0));
        }
    }
}

/// Whatever the registry holds, cycles included, no node is handed out
/// twice (and the walk always ends: `walk` and `traverse` terminate).
pub proof fn lemma_at_most_once<I: TraversalItem>(
    root_id: NodeID,
    root_step: I,
    before: Map<NodeID, I>,
    after: Map<NodeID, I>,
    r: Seq<(NodeID, I)>,
)
    requires
        walk_result(root_id, root_step, before, after, r),
    ensures
        forall|i: int, j: int| 0 <= i < r.len() && 0 <= j < r.len() && i != j ==> #[trigger] r[i].0
            != #[trigger] r[j].0,
{
    let ids = reported_ids(r);
    assert forall|i: int, j: int| 0 <= i < r.len() && 0 <= j < r.len() && i != j implies #[trigger] r[i].0
        != #[trigger] r[j].0 by {
        assert(ids[j] == r[j].0 && ids[i] == r[i].0);
    }
}

/// Edges out of the `j`-th reported node: the root's own for the first one,
/// else those of the registered step.
#[verifier::opaque]
spec fn origin_targets<I: TraversalItem>(
    g0: Map<NodeID, I>,
    rp: Seq<NodeID>,
    log: Seq<NodeID>,
    j: int,
) -> Seq<NodeID> {
    if j == 0 {
        rp
    } else {
        targets(g0[log[j]])
    }
}

/// `x` is among the parents of one of the first `n` logged nodes.
spec fn found<I: TraversalItem>(
    g0: Map<NodeID, I>,
    rp: Seq<NodeID>,
    log: Seq<NodeID>,
    n: int,
    x: NodeID,
) -> bool {
    exists|j: int| 0 <= j < n && #[trigger] origin_targets(g0, rp, log, j).contains(x)
}

/// The log starts at the root and goes on with distinct registered nodes,
/// each reachable.
#[verifier::opaque]
spec fn log_ok<I: TraversalItem>(
    g0: Map<NodeID, I>,
    root: NodeID,
    rp: Seq<NodeID>,
    log: Seq<NodeID>,
) -> bool {
    &&& log.len() >= 1
    &&& log[0] == root
    &&& log.no_duplicates()
    &&& forall|i: int|
        #![trigger log[i]]
        1 <= i < log.len() ==> g0.contains_key(log[i]) && reachable(g0, rp, log[i])
}

/// Every pending id is reachable and is a parent of a logged node.
#[verifier::opaque]
spec fn pending_ok<I: TraversalItem>(
    g0: Map<NodeID, I>,
    rp: Seq<NodeID>,
    log: Seq<NodeID>,
    pending: Seq<NodeID>,
) -> bool {
    forall|i: int|
        #![trigger pending[i]]
        0 <= i < pending.len() ==> reachable(g0, rp, pending[i]) && found(
            g0,
            rp,
            log,
            log.len() as int,
            pending[i],
        )
}

/// Every logged node after the root is a parent of an earlier one.
#[verifier::opaque]
spec fn discovered<I: TraversalItem>(g0: Map<NodeID, I>, rp: Seq<NodeID>, log: Seq<NodeID>) -> bool {
    forall|i: int| #![trigger log[i]] 1 <= i < log.len() ==> found(g0, rp, log, i, log[i])
}

/// Each parent of a logged node is pending or out of the registry.
#[verifier::opaque]
spec fn closed<I: TraversalItem>(
    g0: Map<NodeID, I>,
    rp: Seq<NodeID>,
    log: Seq<NodeID>,
    reg: Map<NodeID, I>,
    pending: Seq<NodeID>,
) -> bool {
    forall|j: int, x: NodeID|
        0 <= j < log.len() && #[trigger] origin_targets(g0, rp, log, j).contains(x)
            ==> pending.contains(x) || !reg.contains_key(x)
}

/// State of a walk over the registry `g0` from `root`, whose own parents are
/// `rp`: `reg` is what is left of the registry, `log` the nodes reported so far.
spec fn walk_inv<I: TraversalItem>(
    g0: Map<NodeID, I>,
    root: NodeID,
    rp: Seq<NodeID>,
    reg: Map<NodeID, I>,
    visited: Set<NodeID>,
    pending: Seq<NodeID>,
    log: Seq<NodeID>,
) -> bool {
    &&& registry_wf(g0)
    &&& !g0.contains_key(root)
    &&& log_ok(g0, root, rp, log)
    &&& reg == g0.remove_keys(log.to_set())
    &&& visited == log.to_set()
    &&& pending_ok(g0, rp, log, pending)
    &&& discovered(g0, rp, log)
    &&& closed(g0, rp, log, reg, pending)
}

proof fn lemma_reach_start<I: TraversalItem>(g0: Map<NodeID, I>, rp: Seq<NodeID>, p: NodeID)
    requires
        rp.contains(p),
    ensures
        reachable(g0, rp, p),
{
    reveal(reachable);
    let path = seq![p];
    assert(is_path(g0, rp, path));
}

proof fn lemma_reach_step<I: TraversalItem>(
    g0: Map<NodeID, I>,
    rp: Seq<NodeID>,
    id: NodeID,
    p: NodeID,
)
    requires
        reachable(g0, rp, id),
        g0.contains_key(id),
        targets(g0[id]).contains(p),
    ensures
        reachable(g0, rp, p),
{
    reveal(reachable);
    let path = choose|path: Seq<NodeID>| #[trigger] is_path(g0, rp, path) && path.last() == id;
    let longer = path.push(p);
    assert forall|i: int| #![trigger longer[i]] 0 <= i < longer.len() - 1 implies g0.contains_key(
        longer[i],
    ) && targets(g0[longer[i]]).contains(longer[i + 1]) by {
        if i < path.len() - 1 {
            assert(longer[i] == path[i]);
            assert(longer[i + 1] == path[i + 1]);
        } else {
            assert(longer[i] == id);
        }
    }
    assert(is_path(g0, rp, longer));
    assert(longer.last() == p);
}

/// Once nothing is pending, no node on a path from the root's parents is
/// left in the registry.
proof fn lemma_path_drained<I: TraversalItem>(
    g0: Map<NodeID, I>,
    root: NodeID,
    rp: Seq<NodeID>,
    reg: Map<NodeID, I>,
    visited: Set<NodeID>,
    log: Seq<NodeID>,
    path: Seq<NodeID>,
    k: int,
)
    requires
        walk_inv(g0, root, rp, reg, visited, Seq::empty(), log),
        is_path(g0, rp, path),
        0 <= k < path.len(),
    ensures
        !reg.contains_key(path[k]),
    decreases k,
{
    reveal(origin_targets);
    reveal(closed);
    reveal(log_ok);
    if k == 0 {
        assert(origin_targets(g0, rp, log, 0).contains(path[0]));
    } else {
        lemma_path_drained(g0, root, rp, reg, visited, log, path, k - 1);
        let a = path[k - 1];
        assert(g0.contains_key(a) && targets(g0[a]).contains(path[k]));
        assert(log.to_set().contains(a));
        let j = choose|j: int| 0 <= j < log.len() && log[j] == a;
        assert(j != 0);
        assert(origin_targets(g0, rp, log, j).contains(path[k]));
    }
}

/// A walk with nothing pending has reported exactly the reachable
/// registered nodes, and taken exactly those out of the registry.
proof fn lemma_walk_done<I: TraversalItem>(
    g0: Map<NodeID, I>,
    root: NodeID,
    rp: Seq<NodeID>,
    reg: Map<NodeID, I>,
    visited: Set<NodeID>,
    log: Seq<NodeID>,
)
    requires
        walk_inv(g0, root, rp, reg, visited, Seq::empty(), log),
    ensures
        reg == g0.remove_keys(reached(g0, rp)),
        forall|x: NodeID|
            reached(g0, rp).contains(x) <==> exists|i: int| 1 <= i < log.len() && log[i] == x,
{
    reveal(log_ok);
    assert forall|x: NodeID| g0.contains_key(x) implies (log.to_set().contains(x) <==> reachable(
        g0,
        rp,
        x,
    )) by {
        if reachable(g0, rp, x) {
            reveal(reachable);
            let path = choose|path: Seq<NodeID>| #[trigger]
                is_path(g0, rp, path) && path.last() == x;
            lemma_path_drained(g0, root, rp, reg, visited, log, path, path.len() - 1);
        }
        if log.to_set().contains(x) {
            let i = choose|i: int| 0 <= i < log.len() && log[i] == x;
            assert(i != 0);
        }
    }
    assert forall|x: NodeID|
        reached(g0, rp).contains(x) implies exists|i: int| 1 <= i < log.len() && log[i] == x by {
        assert(log.to_set().contains(x));
        let i = choose|i: int| 0 <= i < log.len() && log[i] == x;
        assert(i != 0);
    }
    assert(reg =~= g0.remove_keys(reached(g0, rp)));
}

/// The state at the start: the root logged and visited, its parents pending,
/// the registry whole.
proof fn lemma_walk_start<I: TraversalItem>(g0: Map<NodeID, I>, root: NodeID, rp: Seq<NodeID>)
    requires
        registry_wf(g0),
        !g0.contains_key(root),
    ensures
        walk_inv(g0, root, rp, g0, seq![root].to_set(), rp, seq![root]),
{
    let log = seq![root];
    reveal(origin_targets);
    reveal(log_ok);
    reveal(pending_ok);
    reveal(discovered);
    reveal(closed);
    assert(log.no_duplicates());
    assert(origin_targets(g0, rp, log, 0) == rp);
    assert forall|i: int| #![trigger rp[i]] 0 <= i < rp.len() implies reachable(g0, rp, rp[i])
        && found(g0, rp, log, 1, rp[i]) by {
        assert(rp.contains(rp[i]));
        lemma_reach_start(g0, rp, rp[i]);
    }
    assert(log.to_set() =~= set![root]) by {
        assert(log[0] == root);
    }
    assert(g0.remove_keys(log.to_set()) =~= g0);
}

/// Logging one more node leaves the parents of the earlier ones as they were.
proof fn lemma_origin_push<I: TraversalItem>(
    g0: Map<NodeID, I>,
    rp: Seq<NodeID>,
    log: Seq<NodeID>,
    id: NodeID,
)
    requires
        log.len() >= 1,
    ensures
        forall|j: int|
            0 <= j < log.len() ==> #[trigger] origin_targets(g0, rp, log.push(id), j)
                == origin_targets(g0, rp, log, j),
        origin_targets(g0, rp, log.push(id), log.len() as int) == targets(g0[id]),
        forall|n: int, x: NodeID|
            0 <= n <= log.len() && #[trigger] found(g0, rp, log, n, x) ==> found(
                g0,
                rp,
                log.push(id),
                n,
                x,
            ),
{
    reveal(origin_targets);
    let log2 = log.push(id);
    assert forall|j: int| 0 <= j < log.len() implies #[trigger] origin_targets(g0, rp, log2, j)
        == origin_targets(g0, rp, log, j) by {
        assert(log2[j] == log[j]);
    }
    assert(log2[log.len() as int] == id);
    assert forall|n: int, x: NodeID|
        0 <= n <= log.len() && #[trigger] found(g0, rp, log, n, x) implies found(
        g0,
        rp,
        log2,
        n,
        x,
    ) by {
        let j = choose|j: int| 0 <= j < n && #[trigger] origin_targets(g0, rp, log, j).contains(x);
        assert(origin_targets(g0, rp, log2, j) == origin_targets(g0, rp, log, j));
    }
}

/// Popping an id that the registry no longer holds keeps the walk's state.
proof fn lemma_skip<I: TraversalItem>(
    g0: Map<NodeID, I>,
    root: NodeID,
    rp: Seq<NodeID>,
    reg: Map<NodeID, I>,
    visited: Set<NodeID>,
    before: Seq<NodeID>,
    log: Seq<NodeID>,
)
    requires
        walk_inv(g0, root, rp, reg, visited, before, log),
        before.len() > 0,
        !reg.contains_key(before.last()),
    ensures
        walk_inv(g0, root, rp, reg, visited, before.drop_last(), log),
{
    reveal(closed);
    reveal(pending_ok);
    let id = before.last();
    let after = before.drop_last();
    assert forall|j: int, x: NodeID|
        0 <= j < log.len() && #[trigger] origin_targets(g0, rp, log, j).contains(x) implies after.contains(
        x,
    ) || !reg.contains_key(x) by {
        if before.contains(x) && x != id {
            let k = choose|k: int| 0 <= k < before.len() && before[k] == x;
            assert(after[k] == x);
        }
    }
    assert forall|i: int| #![trigger after[i]] 0 <= i < after.len() implies reachable(
        g0,
        rp,
        after[i],
    ) && found(g0, rp, log, log.len() as int, after[i]) by {
        assert(after[i] == before[i]);
    }
}

/// Reporting the registered step under the popped id, once its unvisited
/// parents are pending, keeps the walk's state with that id logged.
proof fn lemma_visit<I: TraversalItem>(
    g0: Map<NodeID, I>,
    root: NodeID,
    rp: Seq<NodeID>,
    reg: Map<NodeID, I>,
    visited: Set<NodeID>,
    before: Seq<NodeID>,
    log: Seq<NodeID>,
    pending: Seq<NodeID>,
)
    requires
        walk_inv(g0, root, rp, reg, visited, before, log),
        before.len() > 0,
        reg.contains_key(before.last()),
        forall|x: NodeID| before.drop_last().contains(x) ==> pending.contains(x),
        forall|x: NodeID|
            #[trigger] targets(g0[before.last()]).contains(x) ==> pending.contains(x)
                || log.push(before.last()).contains(x),
        forall|i: int|
            #![trigger pending[i]]
            0 <= i < pending.len() ==> reachable(g0, rp, pending[i]) && (found(
                g0,
                rp,
                log,
                log.len() as int,
                pending[i],
            ) || targets(g0[before.last()]).contains(pending[i])),
    ensures
        walk_inv(
            g0,
            root,
            rp,
            reg.remove(before.last()),
            log.push(before.last()).to_set(),
            pending,
            log.push(before.last()),
        ),
{
    let id = before.last();
    let log2 = log.push(id);
    let reg2 = reg.remove(id);
    let n = log.len() as int;
    reveal(log_ok);
    reveal(pending_ok);
    lemma_origin_push(g0, rp, log, id);
    assert(before[before.len() - 1] == id);
    assert(reachable(g0, rp, id) && found(g0, rp, log, n, id));
    assert(g0.contains_key(id) && !log.to_set().contains(id));
    assert(!log.contains(id));
    assert(log_ok(g0, root, rp, log2)) by {
        assert forall|a: int, b: int| 0 <= a < b < log2.len() implies log2[a] != log2[b] by {
            if b == n {
                assert(log2[a] == log[a]);
            } else {
                assert(log2[a] == log[a] && log2[b] == log[b]);
            }
        }
        assert forall|i: int| #![trigger log2[i]] 1 <= i < log2.len() implies g0.contains_key(
            log2[i],
        ) && reachable(g0, rp, log2[i]) by {
            if i < n {
                assert(log2[i] == log[i]);
            }
        }
    }
    log.lemma_push_to_set_commute(id);
    assert(reg2 =~= g0.remove_keys(log2.to_set()));
    assert(pending_ok(g0, rp, log2, pending)) by {
        assert forall|i: int| #![trigger pending[i]] 0 <= i < pending.len() implies found(
            g0,
            rp,
            log2,
            n + 1,
            pending[i],
        ) by {
            if targets(g0[id]).contains(pending[i]) {
                assert(origin_targets(g0, rp, log2, n).contains(pending[i]));
            } else {
                assert(found(g0, rp, log2, n, pending[i]));
                let j = choose|j: int|
                    0 <= j < n && #[trigger] origin_targets(g0, rp, log2, j).contains(pending[i]);
            }
        }
    }
    assert(discovered(g0, rp, log2)) by {
        reveal(discovered);
        assert forall|i: int| #![trigger log2[i]] 1 <= i < log2.len() implies found(
            g0,
            rp,
            log2,
            i,
            log2[i],
        ) by {
            if i < n {
                assert(log2[i] == log[i]);
                assert(found(g0, rp, log, i, log[i]));
            } else {
                assert(log2[i] == id);
            }
        }
    }
    assert(closed(g0, rp, log2, reg2, pending)) by {
        reveal(closed);
        assert forall|j: int, x: NodeID|
            0 <= j < log2.len() && #[trigger] origin_targets(g0, rp, log2, j).contains(
                x,
            ) implies pending.contains(x) || !reg2.contains_key(x) by {
            if j == n {
                if !pending.contains(x) {
                    assert(log2.contains(x));
                    assert(log2.to_set().contains(x));
                }
            } else {
                assert(origin_targets(g0, rp, log, j).contains(x));
                if x != id && before.contains(x) {
                    let k = choose|k: int| 0 <= k < before.len() && before[k] == x;
                    assert(before.drop_last()[k] == x);
                }
            }
        }
    }
}

/// Pops pending ids until one names a step that is still registered and not
/// yet visited; that step is taken out of the registry, its unvisited
/// parents are pushed, and it is handed back with its node id.
fn next_step<I: TraversalItem>(
    visited: &mut HashSet<NodeID>,
    pending: &mut Vec<NodeID>,
    steps: &mut HashMap<NodeID, I>,
    Ghost(g0): Ghost<Map<NodeID, I>>,
    Ghost(root): Ghost<NodeID>,
    Ghost(rp): Ghost<Seq<NodeID>>,
    Ghost(log): Ghost<Seq<NodeID>>,
) -> (r: Option<(NodeID, I)>)
    requires
        walk_inv(g0, root, rp, old(steps)@, old(visited)@, old(pending)@, log),
    ensures
        match r {
            Some((id, step)) => {
                &&& walk_inv(
                    g0,
                    root,
                    rp,
                    final(steps)@,
                    final(visited)@,
                    final(pending)@,
                    log.push(id),
                )
                &&& g0.contains_key(id)
                &&& step == g0[id]
                &&& final(steps)@.len() < old(steps)@.len()
            },
            None => {
                &&& walk_inv(g0, root, rp, final(steps)@, final(visited)@, final(pending)@, log)
                &&& final(pending)@.len() == 0
            },
        },
{
    loop
        invariant
            walk_inv(g0, root, rp, steps@, visited@, pending@, log),
            steps@ == old(steps)@,
        decreases pending@.len(),
    {
        let ghost before = pending@;
        let ghost reg = steps@;
        let id = match pending.pop() {
            Some(id) => id,
            None => {
                return None;
            },
        };
        let step = match steps.remove(&id) {
            Some(step) => step,
            None => {
                proof {
                    assert(steps@ =~= reg);
                    lemma_skip(g0, root, rp, reg, visited@, before, log);
                }
                continue;
            },
        };
        let step_node = step.id();
        let step_parents = step.parent_nodes();
        proof {
            assert(reg.contains_key(id) && g0[id] == step);
            assert(step_node == id);
            assert(!visited@.contains(id));
        }
        if visited.contains(&step_node) {
            // Not reached: a step still registered has not been visited.
            continue;
        }
        visited.insert(step_node);
        proof {
            reveal(targets);
            assert(reg.contains_key(id) && g0[id] == step);
            log.lemma_push_to_set_commute(id);
            reveal(pending_ok);
            assert(before[before.len() - 1] == id);
            assert forall|i: int| #![trigger pending@[i]] 0 <= i < pending@.len() implies reachable(
                g0,
                rp,
                pending@[i],
            ) && found(g0, rp, log, log.len() as int, pending@[i]) by {
                assert(pending@[i] == before[i]);
            }
            assert forall|x: NodeID| before.drop_last().contains(x) implies pending@.contains(x) by {
            }
            assert(reg.dom().len() > 0) by {
                assert(reg.dom().contains(id));
            }
        }
        let mut k: usize = 0;
        while k < step_parents.len()
            invariant
                0 <= k <= step_parents@.len(),
                step_parents@ == targets(g0[id]),
                walk_inv(g0, root, rp, reg, log.to_set(), before, log),
                before.len() > 0,
                before.last() == id,
                reg.contains_key(id),
                steps@ == reg.remove(id),
                steps@.len() < reg.len(),
                reg == old(steps)@,
                visited@ == log.push(id).to_set(),
                forall|x: NodeID| before.drop_last().contains(x) ==> pending@.contains(x),
                forall|q: int|
                    0 <= q < k ==> pending@.contains(#[trigger] step_parents@[q]) || log.push(
                        id,
                    ).contains(step_parents@[q]),
                forall|i: int|
                    #![trigger pending@[i]]
                    0 <= i < pending@.len() ==> reachable(g0, rp, pending@[i]) && (found(
                        g0,
                        rp,
                        log,
                        log.len() as int,
                        pending@[i],
                    ) || targets(g0[id]).contains(pending@[i])),
            decreases step_parents@.len() - k,
        {
            let p = step_parents[k];
            if !visited.contains(&p) {
                proof {
                    assert(targets(g0[id]).contains(p));
                    reveal(log_ok);
                    reveal(pending_ok);
                    assert(reachable(g0, rp, before[before.len() - 1]));
                    lemma_reach_step(g0, rp, id, p);
                }
                let ghost old_pending = pending@;
                pending.push(p);
                proof {
                    assert(pending@.last() == p);
                    assert forall|x: NodeID| old_pending.contains(x) implies pending@.contains(x) by {
                        let m = choose|m: int| 0 <= m < old_pending.len() && old_pending[m] == x;
                        assert(pending@[m] == x);
                    }
                    assert forall|i: int| #![trigger pending@[i]] 0 <= i < pending@.len() implies reachable(
                        g0,
                        rp,
                        pending@[i],
                    ) && (found(g0, rp, log, log.len() as int, pending@[i]) || targets(
                        g0[id],
                    ).contains(pending@[i])) by {
                        if i < old_pending.len() {
                            assert(pending@[i] == old_pending[i]);
                        }
                    }
                }
            }
            k += 1;
        }
        proof {
            assert forall|x: NodeID| #[trigger] targets(g0[id]).contains(x) implies pending@.contains(x)
                || log.push(id).contains(x) by {
                let q = choose|q: int| 0 <= q < step_parents@.len() && step_parents@[q] == x;
            }
            lemma_visit(g0, root, rp, reg, log.to_set(), before, log, pending@);
        }
        return Some((step_node, step));
    }
}

/// What a finished walk has logged, read off the pairs it handed out.
proof fn lemma_report<I: TraversalItem>(
    g0: Map<NodeID, I>,
    root: NodeID,
    root_item: I,
    rp: Seq<NodeID>,
    log: Seq<NodeID>,
    out: Seq<(NodeID, I)>,
)
    requires
        log_ok(g0, root, rp, log),
        discovered(g0, rp, log),
        rp == targets(root_item),
        out.len() == log.len(),
        out[0] == (root, root_item),
        forall|i: int| 0 <= i < log.len() ==> #[trigger] out[i].0 == log[i],
        forall|i: int| 1 <= i < log.len() ==> #[trigger] out[i].1 == g0[log[i]],
    ensures
        reported_ids(out) == log,
        out.len() >= 1,
        reported_ids(out).no_duplicates(),
        forall|i: int|
            #![trigger out[i]]
            1 <= i < out.len() ==> g0.contains_key(out[i].0) && out[i].1 == g0[out[i].0],
        found_before(out),
{
    reveal(log_ok);
    reveal(discovered);
    reveal(origin_targets);
    assert(reported_ids(out) =~= log);
    assert forall|i: int| #![trigger out[i]] 1 <= i < out.len() implies g0.contains_key(out[i].0)
        && out[i].1 == g0[out[i].0] by {
        assert(out[i].0 == log[i]);
        assert(out[i].1 == g0[log[i]]);
    }
    assert forall|i: int| 1 <= i < out.len() implies #[trigger] found_at(out, i) by {
        assert(found(g0, rp, log, i, log[i]));
        let j = choose|j: int| 0 <= j < i && #[trigger] origin_targets(g0, rp, log, j).contains(log[i]);
        assert(origin_targets(g0, rp, log, j).contains(log[i]));
        if j > 0 {
            assert(out[j].1 == g0[log[j]]);
            assert(origin_targets(g0, rp, log, j) == targets(g0[log[j]]));
        } else {
            assert(origin_targets(g0, rp, log, j) == rp);
        }
        assert(out[i].0 == log[i]);
        assert(targets(out[j].1).contains(out[i].0));
    }
}

/// Walks a graph of backward steps from a root node back to its inputs,
/// last discovered first.
pub struct BreadthFirstSearch;

impl BreadthFirstSearch {
    /// Traverse the graph of backward steps from a root node.
    ///
    /// The callback gets, in order, exactly the pairs that `walk` hands back:
    /// the root first, then each registered step that a chain of parents
    /// leads to from the root, once, with its own node id. Ids that the
    /// registry does not hold are leaves and are never passed on. The
    /// reachable steps are taken out of `steps` before the first call, so on
    /// return, and while the callback runs, `steps` holds exactly the steps
    /// that the root does not reach.
    ///
    /// The callback is only asked to accept the pairs that can come: the
    /// root's, and a reachable id with the step registered under it.
    pub fn traverse<F, I>(
        &self,
        root_id: NodeID,
        root_step: I,
        steps: &mut HashMap<NodeID, I>,
        mut callback: F,
    ) where F: FnMut(NodeID, I), I: TraversalItem
        requires
            root_step.node() == root_id,
            registry_wf(old(steps)@),
            !old(steps)@.contains_key(root_id),
            forall|id: NodeID, step: I|
                (id == root_id && step == root_step) || (reached(
                    old(steps)@,
                    targets(root_step),
                ).contains(id) && step == old(steps)@[id]) ==> call_requires(callback, (id, step)),
        ensures
            final(steps)@ == old(steps)@.remove_keys(reached(old(steps)@, targets(root_step))),
            forall|k: NodeID| #[trigger] final(steps)@.contains_key(k) ==> old(steps)@.contains_key(k),
            forall|k: NodeID|
                old(steps)@.contains_key(k) && !reached(old(steps)@, targets(root_step)).contains(k)
                    ==> #[trigger] final(steps)@.contains_key(k) && final(steps)@[k] == old(
                    steps,
                )@[k],
    {
        let ghost before = steps@;
        let order = self.walk(root_id, root_step, steps);
        let ghost pairs = order@;
        for pair in it: order.into_iter()
            invariant
                it.seq() == pairs,
                walk_result(root_id, root_step, before, steps@, pairs),
                forall|id: NodeID, step: I|
                    (id == root_id && step == root_step) || (reached(
                        before,
                        targets(root_step),
                    ).contains(id) && step == before[id]) ==> call_requires(callback, (id, step)),
        {
            proof {
                let i = it.index();
                assert(pair == pairs[i]);
                if i > 0 {
                    assert(reached(before, targets(root_step)).contains(pairs[i].0));
                }
            }
            callback(pair.0, pair.1);
        }
    }

    /// Walks the graph from the root, last discovered first, and hands back
    /// the steps in the order they are reached (`traverse` passes these
    /// pairs, in this order, to its callback).
    ///
    /// The root comes first. After it come the registered steps that the
    /// root reaches, each once, with its own node id; each of them is a
    /// parent of a step that came before it. `steps` is left with exactly the
    /// steps that the root does not reach.
    pub fn walk<I: TraversalItem>(
        &self,
        root_id: NodeID,
        root_step: I,
        steps: &mut HashMap<NodeID, I>,
    ) -> (r: Vec<(NodeID, I)>)
        requires
            root_step.node() == root_id,
            registry_wf(old(steps)@),
            !old(steps)@.contains_key(root_id),
        ensures
            walk_result(root_id, root_step, old(steps)@, final(steps)@, r@),
    {
        let ghost g0 = steps@;
        let ghost rp = targets(root_step);
        proof {
            reveal(targets);
        }
        let ghost root_item = root_step;
        let mut visited: HashSet<NodeID> = HashSet::new();
        let mut parents = root_step.parent_nodes();
        visited.insert(root_id);
        proof {
            lemma_walk_start(g0, root_id, rp);
            assert(visited@ =~= seq![root_id].to_set()) by {
                assert(seq![root_id][0] == root_id);
            }
        }
        let ghost mut log = seq![root_id];
        let mut out: Vec<(NodeID, I)> = Vec::new();
        out.push((root_id, root_step));
        loop
            invariant
                walk_inv(g0, root_id, rp, steps@, visited@, parents@, log),
                out@.len() == log.len(),
                out@.len() >= 1,
                out@[0] == (root_id, root_item),
                forall|i: int| 0 <= i < log.len() ==> #[trigger] out@[i].0 == log[i],
                forall|i: int| 1 <= i < log.len() ==> #[trigger] out@[i].1 == g0[log[i]],
            ensures
                walk_inv(g0, root_id, rp, steps@, visited@, Seq::empty(), log),
                out@.len() == log.len(),
                out@.len() >= 1,
                out@[0] == (root_id, root_item),
                forall|i: int| 0 <= i < log.len() ==> #[trigger] out@[i].0 == log[i],
                forall|i: int| 1 <= i < log.len() ==> #[trigger] out@[i].1 == g0[log[i]],
            decreases steps@.len(),
        {
            match next_step(
                &mut visited,
                &mut parents,
                steps,
                Ghost(g0),
                Ghost(root_id),
                Ghost(rp),
                Ghost(log),
            ) {
                Some((id, step)) => {
                    proof {
                        log = log.push(id);
                    }
                    out.push((id, step));
                },
                None => {
                    proof {
                        assert(parents@ =~= Seq::<NodeID>::empty());
                    }
                    break ;
                },
            }
        }
        proof {
            lemma_walk_done(g0, root_id, rp, steps@, visited@, log);
            lemma_report(g0, root_id, root_item, rp, log, out@);
        }
        out
    }
}

} // verus!
