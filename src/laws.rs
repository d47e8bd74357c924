//! Properties of the operations, stated over the models that their contracts use.

use vstd::prelude::*;

use crate::cluster::{moved, placed};
use crate::node::{insert_pos, lemma_insert_sorted, lemma_load_insert, load_of, sorted_by_weight};
use crate::task::Task;

verus! {

broadcast use vstd::multiset::group_multiset_axioms, vstd::seq_lib::group_to_multiset_ensures;

/// Placing a task on a queue in ascending order of weight leaves it in
/// ascending order, so any run of placements keeps every queue ordered.
pub proof fn law_place_keeps_order(s: Seq<Task>, t: Task)
    requires
        sorted_by_weight(s),
    ensures
        sorted_by_weight(s.insert(insert_pos(s, t.weight), t)),
{
    lemma_insert_sorted(s, t);
}

/// On an ordered, non-empty queue the task that is popped is one of greatest
/// weight, and what stays is the queue's tasks less exactly that one.
pub proof fn law_pop_takes_heaviest(s: Seq<Task>)
    requires
        sorted_by_weight(s),
        s.len() > 0,
    ensures
        forall|k: int| 0 <= k < s.len() ==> s[k].weight <= s.last().weight,
        s.drop_last().to_multiset() == s.to_multiset().remove(s.last()),
{
    assert(s.remove(s.len() - 1) =~= s.drop_last());
}

/// The load of a queue changes by exactly the weight of a task placed on it or
/// popped from it.
pub proof fn law_load_additive(s: Seq<Task>, t: Task)
    ensures
        load_of(s.insert(insert_pos(s, t.weight), t)) == load_of(s) + t.weight,
        s.len() > 0 ==> load_of(s.drop_last()) + s.last().weight == load_of(s),
{
    lemma_insert_pos_range(s, t.weight);
    lemma_load_insert(s, insert_pos(s, t.weight), t);
}

proof fn lemma_insert_pos_range(s: Seq<Task>, w: u8)
    ensures
        0 <= insert_pos(s, w) <= s.len(),
    decreases s.len(),
{
    if s.len() > 0 && s.last().weight > w {
        lemma_insert_pos_range(s.drop_last(), w);
    }
}

/// A migration between two distinct nodes keeps the sum of their loads; when
/// the source has a task of weight `w`, the source loses `w` and the target
/// gains `w` (strictly so when `w` is positive); when the source is empty,
/// neither load changes.
pub proof fn law_migration_conserves(qs: Seq<Seq<Task>>, a: int, b: int)
    requires
        0 <= a < qs.len(),
        0 <= b < qs.len(),
        a != b,
    ensures
        load_of(moved(qs, a, b)[a]) + load_of(moved(qs, a, b)[b]) == load_of(qs[a]) + load_of(
            qs[b],
        ),
        qs[a].len() > 0 ==> load_of(moved(qs, a, b)[a]) + qs[a].last().weight == load_of(qs[a])
            && load_of(moved(qs, a, b)[b]) == load_of(qs[b]) + qs[a].last().weight,
        qs[a].len() > 0 && qs[a].last().weight > 0 ==> load_of(moved(qs, a, b)[a]) < load_of(
            qs[a],
        ) && load_of(moved(qs, a, b)[b]) > load_of(qs[b]),
        qs[a].len() == 0 ==> load_of(moved(qs, a, b)[a]) == load_of(qs[a]) && load_of(
            moved(qs, a, b)[b],
        ) == load_of(qs[b]),
{
    if qs[a].len() > 0 {
        let t = qs[a].last();
        let rest = qs.update(a, qs[a].drop_last());
        assert(placed(rest, b, t)[a] == qs[a].drop_last());
        lemma_insert_pos_range(qs[b], t.weight);
        lemma_load_insert(qs[b], insert_pos(qs[b], t.weight), t);
    }
}

/// Once the source of a migration is empty, migrating again changes no queue,
/// however often it is repeated.
pub proof fn law_migration_from_empty_is_identity(qs: Seq<Seq<Task>>, a: int, b: int)
    requires
        0 <= a < qs.len(),
        0 <= b < qs.len(),
        qs[a].len() == 0,
    ensures
        moved(qs, a, b) == qs,
        moved(moved(qs, a, b), a, b) == qs,
{
}

} // verus!
