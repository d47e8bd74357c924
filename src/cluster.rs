use vstd::prelude::*;

use crate::node::{insert_pos, load_of, SlaveNode};
use crate::task::Task;

verus! {

/// Why a cluster operation could not be carried out.
#[derive(Debug, Clone, Copy, PartialEq, Eq, Structural)]
pub enum ClusterError {
    /// A statistic was asked of a cluster without nodes.
    EmptyCluster,
    /// A node index was not below the number of nodes.
    IndexOutOfRange,
}

/// The load of each node, in node order.
pub open spec fn node_loads(nodes: Seq<SlaveNode>) -> Seq<int> {
    nodes.map_values(|n: SlaveNode| load_of(n@) as int)
}

/// The queue of each node, in node order.
pub open spec fn queues(nodes: Seq<SlaveNode>) -> Seq<Seq<Task>> {
    nodes.map_values(|n: SlaveNode| n@)
}

/// The name of each node, in node order.
pub open spec fn labels(nodes: Seq<SlaveNode>) -> Seq<&'static str> {
    nodes.map_values(|n: SlaveNode| n.label())
}

pub open spec fn sum_of(s: Seq<int>) -> int
    decreases s.len(),
{
    if s.len() == 0 {
        0
    } else {
        sum_of(s.drop_last()) + s.last()
    }
}

/// The total load of the cluster.
pub open spec fn total_load(nodes: Seq<SlaveNode>) -> int {
    sum_of(node_loads(nodes))
}

/// Every node is well formed and the total load fits in 32 bits, which
/// keeps the exact statistics of the loads within 128 bits.
pub open spec fn cluster_wf(nodes: Seq<SlaveNode>) -> bool {
    &&& forall|i: int| 0 <= i < nodes.len() ==> (#[trigger] nodes[i]).wf()
    &&& total_load(nodes) <= u32::MAX
}

/// `qs` after placing task `t` on the queue at index `i`.
pub open spec fn placed(qs: Seq<Seq<Task>>, i: int, t: Task) -> Seq<Seq<Task>> {
    qs.update(i, qs[i].insert(insert_pos(qs[i], t.weight), t))
}

/// `qs` after moving the heaviest task of queue `from` to queue `to`; unchanged
/// when queue `from` is empty.
pub open spec fn moved(qs: Seq<Seq<Task>>, from: int, to: int) -> Seq<Seq<Task>> {
    if qs[from].len() == 0 {
        qs
    } else {
        placed(qs.update(from, qs[from].drop_last()), to, qs[from].last())
    }
}

pub proof fn lemma_sum_update(s: Seq<int>, i: int, v: int)
    requires
        0 <= i < s.len(),
    ensures
        sum_of(s.update(i, v)) == sum_of(s) - s[i] + v,
    decreases s.len(),
{
    let u = s.update(i, v);
    if i < s.len() - 1 {
        assert(u.drop_last() =~= s.drop_last().update(i, v));
        lemma_sum_update(s.drop_last(), i, v);
    } else {
        assert(u.drop_last() =~= s.drop_last());
    }
}

pub proof fn lemma_elem_le_sum(s: Seq<int>, i: int)
    requires
        0 <= i < s.len(),
        forall|k: int| 0 <= k < s.len() ==> s[k] >= 0,
    ensures
        s[i] <= sum_of(s),
    decreases s.len(),
{
    lemma_sum_nonneg(s.drop_last());
    if i < s.len() - 1 {
        lemma_elem_le_sum(s.drop_last(), i);
    }
}

pub proof fn lemma_sum_nonneg(s: Seq<int>)
    requires
        forall|k: int| 0 <= k < s.len() ==> s[k] >= 0,
    ensures
        sum_of(s) >= 0,
    decreases s.len(),
{
    if s.len() > 0 {
        lemma_sum_nonneg(s.drop_last());
    }
}

/// A node's load is at most the total load.
pub proof fn lemma_node_load_le_total(nodes: Seq<SlaveNode>, i: int)
    requires
        0 <= i < nodes.len(),
    ensures
        load_of(nodes[i]@) <= total_load(nodes),
{
    lemma_elem_le_sum(node_loads(nodes), i);
}

/// Replacing one node changes the total load by the change of that node's load.
pub proof fn lemma_total_update(nodes: Seq<SlaveNode>, i: int, n: SlaveNode)
    requires
        0 <= i < nodes.len(),
    ensures
        total_load(nodes.update(i, n)) == total_load(nodes) - load_of(nodes[i]@) + load_of(n@),
{
    assert(node_loads(nodes.update(i, n)) =~= node_loads(nodes).update(i, load_of(n@) as int));
    lemma_sum_update(node_loads(nodes), i, load_of(n@) as int);
}

/// Places `t` on the node at index `i`.
pub fn place_on(nodes: &mut Vec<SlaveNode>, i: usize, t: Task) -> (r: Result<(), ClusterError>)
    requires
        cluster_wf(old(nodes)@),
        total_load(old(nodes)@) + t.weight <= u32::MAX,
    ensures
        cluster_wf(final(nodes)@),
        labels(final(nodes)@) == labels(old(nodes)@),
        i >= old(nodes)@.len() ==> r == Err::<(), ClusterError>(ClusterError::IndexOutOfRange)
            && final(nodes)@ == old(nodes)@,
        i < old(nodes)@.len() ==> r is Ok && queues(final(nodes)@) == placed(
            queues(old(nodes)@),
            i as int,
            t,
        ),
        i < old(nodes)@.len() ==> total_load(final(nodes)@) == total_load(old(nodes)@) + t.weight,
{
    if i >= nodes.len() {
        return Err(ClusterError::IndexOutOfRange);
    }
    let ghost before = nodes@;
    proof {
        lemma_node_load_le_total(before, i as int);
    }
    nodes[i].place(t);
    proof {
        lemma_total_update(before, i as int, nodes@[i as int]);
        assert(queues(nodes@) =~= placed(queues(before), i as int, t));
        assert(labels(nodes@) =~= labels(before));
    }
    Ok(())
}

/// Moves the heaviest task of node `from` to node `to`; does nothing when node
/// `from` has no task.
pub fn migrate(nodes: &mut Vec<SlaveNode>, from: usize, to: usize) -> (r: Result<(), ClusterError>)
    requires
        cluster_wf(old(nodes)@),
    ensures
        cluster_wf(final(nodes)@),
        labels(final(nodes)@) == labels(old(nodes)@),
        total_load(final(nodes)@) == total_load(old(nodes)@),
        from >= old(nodes)@.len() || to >= old(nodes)@.len() ==> r == Err::<(), ClusterError>(
            ClusterError::IndexOutOfRange,
        ) && final(nodes)@ == old(nodes)@,
        from < old(nodes)@.len() && to < old(nodes)@.len() ==> r is Ok && queues(final(nodes)@)
            == moved(queues(old(nodes)@), from as int, to as int),
{
    if from >= nodes.len() || to >= nodes.len() {
        return Err(ClusterError::IndexOutOfRange);
    }
    let ghost before = nodes@;
    let popped = nodes[from].pop_fattest();
    match popped {
        None => {
            proof {
                lemma_total_update(before, from as int, nodes@[from as int]);
                assert(queues(nodes@) =~= queues(before));
                assert(labels(nodes@) =~= labels(before));
            }
        },
        Some(t) => {
            let ghost mid = nodes@;
            proof {
                lemma_total_update(before, from as int, mid[from as int]);
                lemma_node_load_le_total(mid, to as int);
                assert(queues(mid) =~= queues(before).update(
                    from as int,
                    queues(before)[from as int].drop_last(),
                ));
            }
            nodes[to].place(t);
            proof {
                lemma_total_update(mid, to as int, nodes@[to as int]);
                assert(queues(nodes@) =~= moved(queues(before), from as int, to as int));
                assert(labels(nodes@) =~= labels(before));
            }
        },
    }
    Ok(())
}

} // verus!
