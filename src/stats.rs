use vstd::prelude::*;
use vstd::relations::sorted_by;
use vstd::seq_lib::lemma_sorted_unique;

use crate::cluster::{
    cluster_wf, lemma_node_load_le_total, lemma_sum_nonneg, node_loads, sum_of, total_load,
    ClusterError,
};
use crate::node::SlaveNode;

verus! {

broadcast use vstd::multiset::group_multiset_axioms, vstd::seq_lib::group_to_multiset_ensures;

/// The values of a sequence of `u64` as mathematical integers.
pub open spec fn as_ints(v: Seq<u64>) -> Seq<int> {
    v.map_values(|x: u64| x as int)
}

pub open spec fn ascending(s: Seq<int>) -> bool {
    forall|i: int, j: int| 0 <= i <= j < s.len() ==> s[i] <= s[j]
}

/// `k` is the first index of a smallest value of `s`.
pub open spec fn is_first_min(s: Seq<int>, k: int) -> bool {
    &&& 0 <= k < s.len()
    &&& forall|j: int| 0 <= j < s.len() ==> s[k] <= s[j]
    &&& forall|j: int| 0 <= j < k ==> s[j] > s[k]
}

/// `k` is the first index of a largest value of `s`.
pub open spec fn is_first_max(s: Seq<int>, k: int) -> bool {
    &&& 0 <= k < s.len()
    &&& forall|j: int| 0 <= j < s.len() ==> s[k] >= s[j]
    &&& forall|j: int| 0 <= j < k ==> s[j] < s[k]
}

/// Twice the statistical median of `s`: twice the middle value of `s` in
/// ascending order when its length is odd, the sum of the two middle values
/// when it is even.
pub open spec fn median_doubled(s: Seq<int>) -> int {
    let t = s.sort();
    let n = t.len() as int;
    if n % 2 == 1 {
        2 * t[(n - 1) / 2]
    } else {
        t[n / 2 - 1] + t[n / 2]
    }
}

pub open spec fn sum_sq(s: Seq<int>) -> int
    decreases s.len(),
{
    if s.len() == 0 {
        0
    } else {
        sum_sq(s.drop_last()) + s.last() * s.last()
    }
}

/// `n` squared times the population variance of the `n` values of `s`:
/// `n * sum(x * x) - sum(x) * sum(x)`. The standard deviation is its square
/// root divided by `n`.
pub open spec fn variance_scaled(s: Seq<int>) -> int {
    s.len() * sum_sq(s) - sum_of(s) * sum_of(s)
}

proof fn lemma_insert_multiset(s: Seq<int>, p: int, a: int)
    requires
        0 <= p <= s.len(),
    ensures
        s.insert(p, a).to_multiset() =~= s.to_multiset().insert(a),
{
    let u = s.insert(p, a);
    assert(u.remove(p) =~= s);
    assert(u[p] == a);
    assert(u.to_multiset().count(a) > 0) by {
        assert(u.contains(a));
    }
}

/// The values of `v` in ascending order.
fn sort_loads(v: &Vec<u64>) -> (r: Vec<u64>)
    requires
        forall|k: int| 0 <= k < v@.len() ==> v@[k] <= u32::MAX,
    ensures
        as_ints(r@) == as_ints(v@).sort(),
        forall|k: int| 0 <= k < r@.len() ==> r@[k] <= u32::MAX,
{
    let mut out: Vec<u64> = Vec::new();
    let mut i: usize = 0;
    while i < v.len()
        invariant
            0 <= i <= v@.len(),
            ascending(as_ints(out@)),
            as_ints(out@).to_multiset() == as_ints(v@.subrange(0, i as int)).to_multiset(),
            forall|k: int| 0 <= k < v@.len() ==> v@[k] <= u32::MAX,
            forall|k: int| 0 <= k < out@.len() ==> out@[k] <= u32::MAX,
        decreases v@.len() - i,
    {
        let x = v[i];
        let mut p: usize = out.len();
        while p > 0 && out[p - 1] > x
            invariant
                0 <= p <= out@.len(),
                forall|k: int| p <= k < out@.len() ==> out@[k] > x,
            decreases p,
        {
            p = p - 1;
        }
        let ghost old_out = as_ints(out@);
        out.insert(p, x);
        proof {
            let u = as_ints(out@);
            assert(u =~= old_out.insert(p as int, x as int));
            lemma_insert_multiset(old_out, p as int, x as int);
            assert(as_ints(v@.subrange(0, i + 1)) =~= as_ints(v@.subrange(0, i as int)).push(
                x as int,
            ));
            assert forall|a: int, b: int| 0 <= a <= b < u.len() implies u[a] <= u[b] by {
                if a < p && b > p {
                    assert(u[b] == old_out[b - 1]);
                } else if a > p {
                    assert(u[a] == old_out[a - 1] && u[b] == old_out[b - 1]);
                } else if a == p && b > p {
                    assert(u[b] == old_out[b - 1]);
                } else if a < p && b == p {
                    assert(old_out[a] <= old_out[p - 1]);
                }
            }
        }
        i = i + 1;
    }
    proof {
        let leq = |x: int, y: int| x <= y;
        assert(v@.subrange(0, i as int) =~= v@);
        as_ints(v@).lemma_sort_ensures();
        assert(sorted_by(as_ints(out@), leq));
        lemma_sorted_unique(as_ints(out@), as_ints(v@).sort(), leq);
    }
    out
}

/// The load of each node, in node order.
pub fn loads(nodes: &[SlaveNode]) -> (r: Vec<u64>)
    requires
        cluster_wf(nodes@),
    ensures
        as_ints(r@) == node_loads(nodes@),
        forall|k: int| 0 <= k < r@.len() ==> r@[k] <= u32::MAX,
{
    let mut out: Vec<u64> = Vec::new();
    let mut i: usize = 0;
    while i < nodes.len()
        invariant
            0 <= i <= nodes@.len(),
            cluster_wf(nodes@),
            as_ints(out@) == node_loads(nodes@).subrange(0, i as int),
            forall|k: int| 0 <= k < out@.len() ==> out@[k] <= u32::MAX,
        decreases nodes@.len() - i,
    {
        proof {
            lemma_node_load_le_total(nodes@, i as int);
        }
        let l = nodes[i].get_load();
        assert(l as int == node_loads(nodes@)[i as int]);
        let ghost prev = out@;
        out.push(l);
        assert(as_ints(out@) =~= as_ints(prev).push(l as int));
        assert(as_ints(out@) =~= node_loads(nodes@).subrange(0, i + 1));
        i = i + 1;
    }
    assert(as_ints(out@) =~= node_loads(nodes@));
    out
}

/// The index of the least loaded node; the first one where several tie.
pub fn min_loaded_index(nodes: &[SlaveNode]) -> (r: Result<usize, ClusterError>)
    requires
        cluster_wf(nodes@),
    ensures
        nodes@.len() == 0 ==> r == Err::<usize, ClusterError>(ClusterError::EmptyCluster),
        nodes@.len() > 0 ==> r is Ok,
        r matches Ok(k) ==> is_first_min(node_loads(nodes@), k as int),
{
    if nodes.len() == 0 {
        return Err(ClusterError::EmptyCluster);
    }
    let ls = loads(nodes);
    let mut best: usize = 0;
    let mut i: usize = 1;
    while i < ls.len()
        invariant
            as_ints(ls@) == node_loads(nodes@),
            ls@.len() == nodes@.len(),
            0 <= best < i <= ls@.len(),
            forall|j: int| 0 <= j < i ==> ls@[best as int] <= ls@[j],
            forall|j: int| 0 <= j < best ==> ls@[j] > ls@[best as int],
        decreases ls@.len() - i,
    {
        if ls[i] < ls[best] {
            best = i;
        }
        i = i + 1;
    }
    Ok(best)
}

/// The index of the most loaded node; the first one where several tie.
pub fn max_loaded_index(nodes: &[SlaveNode]) -> (r: Result<usize, ClusterError>)
    requires
        cluster_wf(nodes@),
    ensures
        nodes@.len() == 0 ==> r == Err::<usize, ClusterError>(ClusterError::EmptyCluster),
        nodes@.len() > 0 ==> r is Ok,
        r matches Ok(k) ==> is_first_max(node_loads(nodes@), k as int),
{
    if nodes.len() == 0 {
        return Err(ClusterError::EmptyCluster);
    }
    let ls = loads(nodes);
    let mut best: usize = 0;
    let mut i: usize = 1;
    while i < ls.len()
        invariant
            as_ints(ls@) == node_loads(nodes@),
            ls@.len() == nodes@.len(),
            0 <= best < i <= ls@.len(),
            forall|j: int| 0 <= j < i ==> ls@[best as int] >= ls@[j],
            forall|j: int| 0 <= j < best ==> ls@[j] < ls@[best as int],
        decreases ls@.len() - i,
    {
        if ls[i] > ls[best] {
            best = i;
        }
        i = i + 1;
    }
    Ok(best)
}

/// Twice the median load, which keeps the median of an even number of nodes
/// exact.
pub fn median_load_doubled(nodes: &[SlaveNode]) -> (r: Result<u64, ClusterError>)
    requires
        cluster_wf(nodes@),
    ensures
        nodes@.len() == 0 ==> r == Err::<u64, ClusterError>(ClusterError::EmptyCluster),
        nodes@.len() > 0 ==> r is Ok,
        r matches Ok(m) ==> m == median_doubled(node_loads(nodes@)),
{
    if nodes.len() == 0 {
        return Err(ClusterError::EmptyCluster);
    }
    let ls = loads(nodes);
    let sorted = sort_loads(&ls);
    proof {
        as_ints(ls@).lemma_sort_ensures();
        assert(as_ints(ls@).to_multiset().len() == as_ints(ls@).len());
        assert(as_ints(ls@).sort().to_multiset().len() == as_ints(ls@).sort().len());
        assert(sorted@.len() == as_ints(sorted@).len());
    }
    let n = sorted.len();
    if n % 2 == 1 {
        Ok(2 * sorted[(n - 1) / 2])
    } else {
        Ok(sorted[n / 2 - 1] + sorted[n / 2])
    }
}

proof fn lemma_prefix_sum_le(s: Seq<int>, i: int)
    requires
        0 <= i <= s.len(),
        forall|k: int| 0 <= k < s.len() ==> s[k] >= 0,
    ensures
        0 <= sum_of(s.subrange(0, i)) <= sum_of(s),
    decreases s.len(),
{
    if i < s.len() {
        assert(s.drop_last().subrange(0, i) =~= s.subrange(0, i));
        lemma_prefix_sum_le(s.drop_last(), i);
    } else {
        assert(s.subrange(0, i) =~= s);
        lemma_sum_nonneg(s);
    }
}

proof fn lemma_sum_sq_le(s: Seq<int>)
    requires
        forall|k: int| 0 <= k < s.len() ==> s[k] >= 0,
    ensures
        0 <= sum_sq(s) <= sum_of(s) * sum_of(s),
    decreases s.len(),
{
    if s.len() > 0 {
        let d = s.drop_last();
        let x = s.last();
        lemma_sum_sq_le(d);
        lemma_sum_nonneg(d);
        let a = sum_sq(d);
        let b = sum_of(d);
        assert(0 <= a + x * x <= (b + x) * (b + x)) by (nonlinear_arith)
            requires
                0 <= a <= b * b,
                b >= 0,
                x >= 0,
        ;
    }
}

/// The sum of `(y - x)^2` over the values `y` of `d` is not negative.
proof fn lemma_spread_about(d: Seq<int>, x: int)
    ensures
        sum_sq(d) - 2 * x * sum_of(d) + d.len() * x * x >= 0,
    decreases d.len(),
{
    if d.len() > 0 {
        let e = d.drop_last();
        let y = d.last();
        lemma_spread_about(e, x);
        let q = sum_sq(e);
        let t = sum_of(e);
        let m = e.len() as int;
        assert(q + y * y - 2 * x * (t + y) + (m + 1) * x * x == (q - 2 * x * t + m * x * x) + (y
            - x) * (y - x)) by (nonlinear_arith);
        assert((y - x) * (y - x) >= 0) by (nonlinear_arith);
    }
}

proof fn lemma_variance_nonneg(s: Seq<int>)
    ensures
        variance_scaled(s) >= 0,
    decreases s.len(),
{
    if s.len() > 0 {
        let d = s.drop_last();
        let x = s.last();
        lemma_variance_nonneg(d);
        lemma_spread_about(d, x);
        let q = sum_sq(d);
        let t = sum_of(d);
        let m = d.len() as int;
        assert((m + 1) * (q + x * x) - (t + x) * (t + x) == (m * q - t * t) + (q - 2 * x * t + m
            * x * x)) by (nonlinear_arith);
    }
}

/// The square of the number of nodes times the population variance of their
/// loads, exact; the standard deviation is its square root divided by the
/// number of nodes.
pub fn scaled_variance(nodes: &[SlaveNode]) -> (r: Result<u128, ClusterError>)
    requires
        cluster_wf(nodes@),
    ensures
        nodes@.len() == 0 ==> r == Err::<u128, ClusterError>(ClusterError::EmptyCluster),
        nodes@.len() > 0 ==> r is Ok,
        r matches Ok(v) ==> v == variance_scaled(node_loads(nodes@)),
{
    if nodes.len() == 0 {
        return Err(ClusterError::EmptyCluster);
    }
    let ls = loads(nodes);
    let ghost s = as_ints(ls@);
    let mut sum: u64 = 0;
    let mut sq: u128 = 0;
    let mut i: usize = 0;
    while i < ls.len()
        invariant
            s == as_ints(ls@),
            s == node_loads(nodes@),
            sum_of(s) <= u32::MAX,
            0 <= i <= ls@.len(),
            sum == sum_of(s.subrange(0, i as int)),
            sq == sum_sq(s.subrange(0, i as int)),
        decreases ls@.len() - i,
    {
        let x = ls[i];
        proof {
            let p = s.subrange(0, i + 1);
            assert(p.drop_last() =~= s.subrange(0, i as int));
            lemma_prefix_sum_le(s, i + 1);
            lemma_sum_sq_le(p);
            assert(sum_of(p) * sum_of(p) <= 0xffff_ffff * 0xffff_ffff) by (nonlinear_arith)
                requires
                    0 <= sum_of(p) <= 0xffff_ffff,
            ;
        }
        sum = sum + x;
        sq = sq + (x as u128) * (x as u128);
        i = i + 1;
    }
    proof {
        assert(s.subrange(0, i as int) =~= s);
        lemma_sum_nonneg(s);
        lemma_sum_sq_le(s);
        lemma_variance_nonneg(s);
        assert(sum_of(s) * sum_of(s) <= 0xffff_ffff * 0xffff_ffff) by (nonlinear_arith)
            requires
                0 <= sum_of(s) <= 0xffff_ffff,
        ;
    }
    let n = ls.len() as u128;
    let total = sum as u128;
    assert(n * sq <= 0xffff_ffff_ffff_ffff * (0xffff_ffff * 0xffff_ffff)) by (nonlinear_arith)
        requires
            n <= 0xffff_ffff_ffff_ffff,
            sq <= 0xffff_ffff * 0xffff_ffff,
    ;
    Ok(n * sq - total * total)
}

} // verus!
