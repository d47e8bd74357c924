use vstd::prelude::*;

use crate::task::Task;

verus! {

/// The tasks are in ascending order of weight.
pub open spec fn sorted_by_weight(s: Seq<Task>) -> bool {
    forall|i: int, j: int| 0 <= i <= j < s.len() ==> s[i].weight <= s[j].weight
}

/// The sum of the weights of the tasks.
pub open spec fn load_of(s: Seq<Task>) -> nat
    decreases s.len(),
{
    if s.len() == 0 {
        0
    } else {
        load_of(s.drop_last()) + s.last().weight as nat
    }
}

/// Where a task of weight `w` enters a queue: after every task of weight at
/// most `w` at the tail, so that tasks of equal weight keep the order in which
/// they came.
pub open spec fn insert_pos(s: Seq<Task>, w: u8) -> int
    decreases s.len(),
{
    if s.len() == 0 {
        0
    } else if s.last().weight <= w {
        s.len() as int
    } else {
        insert_pos(s.drop_last(), w)
    }
}

pub proof fn lemma_insert_pos_bounds(s: Seq<Task>, w: u8)
    requires
        sorted_by_weight(s),
    ensures
        0 <= insert_pos(s, w) <= s.len(),
        forall|k: int| 0 <= k < insert_pos(s, w) ==> s[k].weight <= w,
        forall|k: int| insert_pos(s, w) <= k < s.len() ==> s[k].weight > w,
    decreases s.len(),
{
    if s.len() > 0 {
        let d = s.drop_last();
        if s.last().weight > w {
            lemma_insert_pos_bounds(d, w);
            assert forall|k: int| 0 <= k < insert_pos(s, w) implies s[k].weight <= w by {
                assert(s[k] == d[k]);
            }
            assert forall|k: int| insert_pos(s, w) <= k < s.len() implies s[k].weight > w by {
                if k < d.len() {
                    assert(s[k] == d[k]);
                }
            }
        } else {
            assert forall|k: int| 0 <= k < insert_pos(s, w) implies s[k].weight <= w by {
                assert(s[k].weight <= s[s.len() - 1].weight);
            }
        }
    }
}

/// Placing a task where `insert_pos` says keeps a queue in order.
pub proof fn lemma_insert_sorted(s: Seq<Task>, t: Task)
    requires
        sorted_by_weight(s),
    ensures
        sorted_by_weight(s.insert(insert_pos(s, t.weight), t)),
{
    lemma_insert_pos_bounds(s, t.weight);
    let p = insert_pos(s, t.weight);
    let u = s.insert(p, t);
    assert forall|a: int, b: int| 0 <= a <= b < u.len() implies u[a].weight <= u[b].weight by {
        if a < p && b > p {
            assert(u[b] == s[b - 1]);
        } else if a > p {
            assert(u[a] == s[a - 1] && u[b] == s[b - 1]);
        } else if a == p && b > p {
            assert(u[b] == s[b - 1]);
        }
    }
}

pub proof fn lemma_load_insert(s: Seq<Task>, p: int, t: Task)
    requires
        0 <= p <= s.len(),
    ensures
        load_of(s.insert(p, t)) == load_of(s) + t.weight,
    decreases s.len(),
{
    let u = s.insert(p, t);
    if p == s.len() {
        assert(u.drop_last() =~= s);
    } else {
        assert(u.drop_last() =~= s.drop_last().insert(p, t));
        lemma_load_insert(s.drop_last(), p, t);
    }
}

pub proof fn lemma_load_prefix(s: Seq<Task>, i: int)
    requires
        0 <= i <= s.len(),
    ensures
        load_of(s.subrange(0, i)) <= load_of(s),
    decreases s.len(),
{
    if i < s.len() {
        assert(s.drop_last().subrange(0, i) =~= s.subrange(0, i));
        lemma_load_prefix(s.drop_last(), i);
    } else {
        assert(s.subrange(0, i) =~= s);
    }
}

/// A worker that holds a queue of tasks, kept in ascending order of weight.
#[derive(Debug, PartialEq)]
pub struct SlaveNode {
    name: &'static str,
    queue: Vec<Task>,
}

impl View for SlaveNode {
    type V = Seq<Task>;

    closed spec fn view(&self) -> Seq<Task> {
        self.queue@
    }
}

impl SlaveNode {
    /// The node's name.
    pub closed spec fn label(&self) -> &'static str {
        self.name
    }

    /// The queue is in order and its load fits in a `u64`.
    pub open spec fn wf(&self) -> bool {
        sorted_by_weight(self@) && load_of(self@) <= u64::MAX
    }

    pub fn new(name: &'static str) -> (r: SlaveNode)
        ensures
            r.label() == name,
            r@ == Seq::<Task>::empty(),
            r.wf(),
    {
        SlaveNode { name: name, queue: Vec::new() }
    }

    /// Inserts `t` after every task of weight at most `t.weight`.
    pub fn place(&mut self, t: Task)
        requires
            old(self).wf(),
            load_of(old(self)@) + t.weight <= u64::MAX,
        ensures
            final(self).wf(),
            final(self).label() == old(self).label(),
            final(self)@ == old(self)@.insert(insert_pos(old(self)@, t.weight), t),
            load_of(final(self)@) == load_of(old(self)@) + t.weight,
    {
        let ghost s = self@;
        let w = t.weight;
        let mut i: usize = self.queue.len();
        assert(s.subrange(0, i as int) =~= s);
        while i > 0 && self.queue[i - 1].weight > w
            invariant
                self.queue@ == s,
                0 <= i <= s.len(),
                insert_pos(s, w) == insert_pos(s.subrange(0, i as int), w),
            decreases i,
        {
            assert(s.subrange(0, i as int).drop_last() =~= s.subrange(0, i - 1));
            i = i - 1;
        }
        proof {
            if i == 0 {
                assert(s.subrange(0, 0) =~= Seq::<Task>::empty());
            }
            lemma_insert_pos_bounds(s, w);
            lemma_load_insert(s, i as int, t);
        }
        self.queue.insert(i, t);
        proof {
            lemma_insert_sorted(s, t);
        }
    }

    /// Takes the last task, which is the heaviest.
    pub fn pop_fattest(&mut self) -> (r: Option<Task>)
        requires
            old(self).wf(),
        ensures
            final(self).wf(),
            final(self).label() == old(self).label(),
            match r {
                None => old(self)@.len() == 0 && final(self)@ == old(self)@,
                Some(t) => {
                    &&& old(self)@.len() > 0
                    &&& t == old(self)@.last()
                    &&& final(self)@ == old(self)@.drop_last()
                    &&& forall|k: int| 0 <= k < old(self)@.len() ==> old(self)@[k].weight <= t.weight
                    &&& load_of(final(self)@) + t.weight == load_of(old(self)@)
                },
            },
    {
        self.queue.pop()
    }

    pub fn name(&self) -> (r: &'static str)
        ensures
            r == self.label(),
    {
        self.name
    }

    /// The tasks, lightest first.
    pub fn tasks(&self) -> (r: &Vec<Task>)
        ensures
            r@ == self@,
    {
        &self.queue
    }

    /// The sum of the weights of the tasks in the queue.
    pub fn get_load(&self) -> (r: u64)
        requires
            self.wf(),
        ensures
            r == load_of(self@),
    {
        let ghost s = self@;
        let mut sum: u64 = 0;
        let mut i: usize = 0;
        while i < self.queue.len()
            invariant
                self.queue@ == s,
                load_of(s) <= u64::MAX,
                0 <= i <= s.len(),
                sum == load_of(s.subrange(0, i as int)),
            decreases s.len() - i,
        {
            proof {
                assert(s.subrange(0, i + 1).drop_last() =~= s.subrange(0, i as int));
                lemma_load_prefix(s, i + 1);
            }
            sum = sum + self.queue[i].weight as u64;
            i = i + 1;
        }
        assert(s.subrange(0, i as int) =~= s);
        sum
    }
}

} // verus!
