//! Clustering strategies: partitioning the customer nodes of an instance
//! into clusters, under a capacity bound where the strategy enforces one.
use vstd::prelude::*;

use crate::instance::{Instance, Node, COORD_MAX, MAX_NODES};
use crate::VrpError;
use vstd::multiset::Multiset;

verus! {

/// The clusters a strategy produces: lists of customer node identifiers.
pub type ClusterOutput = Vec<Vec<usize>>;

/// No identifier occurs twice.
pub open spec fn no_dups(s: Seq<usize>) -> bool {
    forall|i: int, j: int| 0 <= i < j < s.len() ==> s[i] != s[j]
}

/// The demand of the first `k` entries of a cluster, summed.
pub open spec fn spec_cluster_demand_upto(inst: Instance, c: Seq<usize>, k: int) -> int
    decreases k,
{
    if k <= 0 {
        0
    } else {
        spec_cluster_demand_upto(inst, c, k - 1) + inst.spec_demand_of(c[k - 1])
    }
}

/// The total demand of a cluster.
pub open spec fn spec_cluster_demand(inst: Instance, c: Seq<usize>) -> int {
    spec_cluster_demand_upto(inst, c, c.len() as int)
}

/// The clusters cover exactly the customers of the instance: every entry
/// is a customer, no entry repeats within or across clusters, and every
/// customer appears somewhere.
pub open spec fn is_partition_of(cs: Seq<Seq<usize>>, inst: Instance) -> bool {
    &&& (forall|k: int|
        0 <= k < cs.len() ==> no_dups(#[trigger] cs[k]) && (forall|i: int|
            0 <= i < cs[k].len() ==> inst.spec_is_customer(#[trigger] cs[k][i])))
    &&& (forall|k: int, l: int, id: usize|
        0 <= k < l < cs.len() ==> !(#[trigger] cs[k].contains(id) && #[trigger] cs[l].contains(
            id,
        )))
    &&& (forall|id: usize|
        inst.spec_is_customer(id) ==> exists|k: int|
            0 <= k < cs.len() && (#[trigger] cs[k]).contains(id))
}

/// Every cluster keeps its total demand within the vehicle capacity.
pub open spec fn clusters_within_capacity(cs: Seq<Seq<usize>>, inst: Instance) -> bool {
    forall|k: int|
        0 <= k < cs.len() ==> spec_cluster_demand(inst, #[trigger] cs[k]) <= inst.capacity
}

/// Sums only depend on the prefix summed over.
proof fn lemma_demand_upto_prefix(inst: Instance, c1: Seq<usize>, c2: Seq<usize>, k: int)
    requires
        0 <= k <= c1.len(),
        k <= c2.len(),
        forall|i: int| 0 <= i < k ==> c1[i] == c2[i],
    ensures
        spec_cluster_demand_upto(inst, c1, k) == spec_cluster_demand_upto(inst, c2, k),
    decreases k,
{
    if k > 0 {
        lemma_demand_upto_prefix(inst, c1, c2, k - 1);
    }
}

/// Appending one identifier adds exactly its demand.
pub proof fn lemma_demand_push(inst: Instance, c: Seq<usize>, id: usize)
    ensures
        spec_cluster_demand(inst, c.push(id)) == spec_cluster_demand(inst, c)
            + inst.spec_demand_of(id),
{
    let c2 = c.push(id);
    lemma_demand_upto_prefix(inst, c, c2, c.len() as int);
    assert(spec_cluster_demand_upto(inst, c2, c2.len() as int) == spec_cluster_demand_upto(
        inst,
        c2,
        c.len() as int,
    ) + inst.spec_demand_of(id));
}

/// Demands are nonnegative, so prefix sums never shrink.
proof fn lemma_demand_upto_mono(inst: Instance, c: Seq<usize>, a: int, b: int)
    requires
        0 <= a <= b <= c.len(),
    ensures
        spec_cluster_demand_upto(inst, c, a) <= spec_cluster_demand_upto(inst, c, b),
    decreases b - a,
{
    if a < b {
        lemma_demand_upto_mono(inst, c, a, b - 1);
    }
}

/// A member's demand never exceeds the cluster total.
pub proof fn lemma_member_demand_le_sum(inst: Instance, c: Seq<usize>, i: int)
    requires
        0 <= i < c.len(),
    ensures
        inst.spec_demand_of(c[i]) <= spec_cluster_demand(inst, c),
{
    assert(spec_cluster_demand_upto(inst, c, i + 1) == spec_cluster_demand_upto(inst, c, i)
        + inst.spec_demand_of(c[i]));
    lemma_demand_upto_mono(inst, c, 0, i);
    lemma_demand_upto_mono(inst, c, i + 1, c.len() as int);
}

/// Sum of the x coordinates of a cluster's first `k` nodes.
pub open spec fn spec_sum_x_upto(inst: Instance, c: Seq<usize>, k: int) -> int
    decreases k,
{
    if k <= 0 {
        0
    } else {
        spec_sum_x_upto(inst, c, k - 1) + inst.spec_node(c[k - 1]).x
    }
}

/// Sum of the y coordinates of a cluster's first `k` nodes.
pub open spec fn spec_sum_y_upto(inst: Instance, c: Seq<usize>, k: int) -> int
    decreases k,
{
    if k <= 0 {
        0
    } else {
        spec_sum_y_upto(inst, c, k - 1) + inst.spec_node(c[k - 1]).y
    }
}

/// How far a node is from the centroid of a cluster, as an exact integer
/// key: the squared distance to the centroid, scaled by the squared
/// cluster size (an empty cluster's centroid is the origin). Comparing
/// keys of candidates against one cluster orders them exactly as their
/// real distances to the centroid would.
pub open spec fn spec_center_key(inst: Instance, cluster: Seq<usize>, id: usize) -> int {
    let len = cluster.len() as int;
    spec_key_of(
        len,
        spec_sum_x_upto(inst, cluster, len),
        spec_sum_y_upto(inst, cluster, len),
        inst.spec_node(id).x as int,
        inst.spec_node(id).y as int,
    )
}

/// `spec_center_key`, written over the centroid data directly.
pub open spec fn spec_key_of(len: int, sx: int, sy: int, x: int, y: int) -> int {
    if len == 0 {
        x * x + y * y
    } else {
        (len * x - sx) * (len * x - sx) + (len * y - sy) * (len * y - sy)
    }
}

/// The capacity-constrained greedy geometric strategy.
pub struct ClusterTspClustering {}

impl ClusterTspClustering {
    /// The core around which the next cluster grows: the first node still
    /// unassigned.
    pub fn choose_core<'a>(&self, problem: &Instance, rest: &'a Vec<usize>) -> (r: Option<
        &'a usize,
    >)
        ensures
            r is Some <==> rest@.len() > 0,
            r matches Some(id) ==> *id == rest@[0],
    {
        if rest.len() > 0 {
            Some(&rest[0])
        } else {
            None
        }
    }

    /// The total demand of a cluster's nodes.
    pub fn cluster_demand(&self, problem: &Instance, cluster: &Vec<usize>) -> (r: u128)
        requires
            problem.wf(),
            forall|i: int| 0 <= i < cluster@.len() ==> problem.spec_has_node(#[trigger] cluster@[i]),
            cluster@.len() <= MAX_NODES,
        ensures
            r as int == spec_cluster_demand(*problem, cluster@),
    {
        let mut sum: u128 = 0;
        let mut i: usize = 0;
        while i < cluster.len()
            invariant
                problem.wf(),
                0 <= i <= cluster@.len(),
                cluster@.len() <= MAX_NODES,
                forall|j: int|
                    0 <= j < cluster@.len() ==> problem.spec_has_node(#[trigger] cluster@[j]),
                sum as int == spec_cluster_demand_upto(*problem, cluster@, i as int),
                sum as int <= i * (u64::MAX as int),
            decreases cluster@.len() - i,
        {
            let d = match problem.demand_of(cluster[i]) {
                Some(d) => d,
                None => {
                    proof {
                        assert(problem.spec_has_node(cluster@[i as int]));
                    }
                    unreached()
                },
            };
            proof {
                assert(i * (u64::MAX as int) + u64::MAX == (i + 1) * (u64::MAX as int))
                    by (nonlinear_arith);
                assert((i + 1) * (u64::MAX as int) < u128::MAX) by (nonlinear_arith)
                    requires
                        0 <= i + 1 <= MAX_NODES + 1,
                ;
            }
            sum = sum + d as u128;
            i += 1;
        }
        sum
    }

    /// The coordinate sums of a cluster's nodes; with the cluster size
    /// they determine the centroid exactly.
    fn center(&self, problem: &Instance, cluster: &Vec<usize>) -> (r: (i128, i128))
        requires
            problem.wf(),
            forall|i: int| 0 <= i < cluster@.len() ==> problem.spec_has_node(#[trigger] cluster@[i]),
            cluster@.len() <= MAX_NODES,
        ensures
            r.0 == spec_sum_x_upto(*problem, cluster@, cluster@.len() as int),
            r.1 == spec_sum_y_upto(*problem, cluster@, cluster@.len() as int),
            -(cluster@.len() as int) * (COORD_MAX as int) <= r.0 <= (cluster@.len() as int) * (
            COORD_MAX as int),
            -(cluster@.len() as int) * (COORD_MAX as int) <= r.1 <= (cluster@.len() as int) * (
            COORD_MAX as int),
    {
        let mut sx: i128 = 0;
        let mut sy: i128 = 0;
        let mut i: usize = 0;
        while i < cluster.len()
            invariant
                problem.wf(),
                0 <= i <= cluster@.len(),
                cluster@.len() <= MAX_NODES,
                forall|j: int|
                    0 <= j < cluster@.len() ==> problem.spec_has_node(#[trigger] cluster@[j]),
                sx == spec_sum_x_upto(*problem, cluster@, i as int),
                sy == spec_sum_y_upto(*problem, cluster@, i as int),
                -(i as int) * (COORD_MAX as int) <= sx <= (i as int) * (COORD_MAX as int),
                -(i as int) * (COORD_MAX as int) <= sy <= (i as int) * (COORD_MAX as int),
            decreases cluster@.len() - i,
        {
            let ni = match problem.find_node(cluster[i]) {
                Some(ni) => ni,
                None => {
                    proof {
                        assert(problem.spec_has_node(cluster@[i as int]));
                    }
                    unreached()
                },
            };
            proof {
                let k = problem.spec_node_idx(cluster@[i as int]);
                assert(problem.nodes@[k].id == cluster@[i as int]);
                assert(k == ni);
                assert(i * (COORD_MAX as int) + COORD_MAX == (i + 1) * (COORD_MAX as int))
                    by (nonlinear_arith);
                assert((i + 1) * (COORD_MAX as int) <= (MAX_NODES + 1) * (COORD_MAX as int))
                    by (nonlinear_arith)
                    requires
                        0 <= i + 1 <= MAX_NODES + 1,
                ;
            }
            let n = self_node(problem, ni);
            sx = sx + n.x as i128;
            sy = sy + n.y as i128;
            i += 1;
        }
        (sx, sy)
    }

    /// The exact centroid key of the node carrying `id`, for a cluster
    /// with the given coordinate sums and size.
    fn center_key(&self, problem: &Instance, id: usize, len: usize, sx: i128, sy: i128) -> (r:
        i128)
        requires
            problem.wf(),
            problem.spec_has_node(id),
            len <= MAX_NODES,
            -(len as int) * (COORD_MAX as int) <= sx <= (len as int) * (COORD_MAX as int),
            -(len as int) * (COORD_MAX as int) <= sy <= (len as int) * (COORD_MAX as int),
        ensures
            r == spec_key_of(
                len as int,
                sx as int,
                sy as int,
                problem.spec_node(id).x as int,
                problem.spec_node(id).y as int,
            ),
    {
        let ni = match problem.find_node(id) {
            Some(ni) => ni,
            None => {
                proof {
                    assert(problem.spec_has_node(id));
                }
                unreached()
            },
        };
        proof {
            let k = problem.spec_node_idx(id);
            assert(problem.nodes@[k].id == id);
            assert(k == ni);
        }
        let n = self_node(problem, ni);
        let x = n.x as i128;
        let y = n.y as i128;
        if len == 0 {
            proof {
                assert(x * x + y * y <= 200000000000000 && 0 <= x * x && 0 <= y * y)
                    by (nonlinear_arith)
                    requires
                        -(COORD_MAX as int) <= x <= COORD_MAX as int,
                        COORD_MAX == 10000000i64,
                        -(COORD_MAX as int) <= y <= COORD_MAX as int,
                ;
            }
            x * x + y * y
        } else {
            proof {
                assert((len as int) * x <= 10000000000000 && (len as int) * x >= -10000000000000)
                    by (nonlinear_arith)
                    requires
                        0 <= len as int <= MAX_NODES,
                        MAX_NODES == 1000000usize,
                        -(COORD_MAX as int) <= x <= COORD_MAX as int,
                        COORD_MAX == 10000000i64,
                ;
                assert((len as int) * y <= 10000000000000 && (len as int) * y >= -10000000000000)
                    by (nonlinear_arith)
                    requires
                        0 <= len as int <= MAX_NODES,
                        MAX_NODES == 1000000usize,
                        -(COORD_MAX as int) <= y <= COORD_MAX as int,
                        COORD_MAX == 10000000i64,
                ;
                assert((len as int) * (COORD_MAX as int) <= 10000000000000) by (nonlinear_arith)
                    requires
                        0 <= len as int <= MAX_NODES,
                        MAX_NODES == 1000000usize,
                        COORD_MAX == 10000000i64,
                ;
            }
            let tx: i128 = (len as i128) * x - sx;
            let ty: i128 = (len as i128) * y - sy;
            proof {
                assert(tx * tx + ty * ty < i128::MAX && 0 <= tx * tx && 0 <= ty * ty)
                    by (nonlinear_arith)
                    requires
                        -20000000000000 <= tx <= 20000000000000,
                        -20000000000000 <= ty <= 20000000000000,
                ;
            }
            tx * tx + ty * ty
        }
    }

    /// The index of the unassigned node nearest to the cluster's
    /// centroid; among equally near nodes the first wins.
    fn nearest_index(&self, problem: &Instance, rest: &Vec<usize>, cluster: &Vec<usize>) -> (r:
        usize)
        requires
            problem.wf(),
            rest@.len() >= 1,
            forall|i: int| 0 <= i < rest@.len() ==> problem.spec_has_node(#[trigger] rest@[i]),
            forall|i: int| 0 <= i < cluster@.len() ==> problem.spec_has_node(#[trigger] cluster@[i]),
            cluster@.len() <= MAX_NODES,
        ensures
            r < rest@.len(),
            forall|j: int|
                0 <= j < r ==> spec_center_key(*problem, cluster@, #[trigger] rest@[j])
                    > spec_center_key(*problem, cluster@, rest@[r as int]),
            forall|j: int|
                r <= j < rest@.len() ==> spec_center_key(*problem, cluster@, #[trigger] rest@[j])
                    >= spec_center_key(*problem, cluster@, rest@[r as int]),
    {
        let (sx, sy) = self.center(problem, cluster);
        let len = cluster.len();
        let mut best: usize = 0;
        let mut best_key: i128 = self.center_key(problem, rest[0], len, sx, sy);
        let mut i: usize = 1;
        while i < rest.len()
            invariant
                problem.wf(),
                1 <= i <= rest@.len(),
                best < i,
                forall|j: int| 0 <= j < rest@.len() ==> problem.spec_has_node(#[trigger] rest@[j]),
                len == cluster@.len(),
                sx == spec_sum_x_upto(*problem, cluster@, len as int),
                sy == spec_sum_y_upto(*problem, cluster@, len as int),
                len <= MAX_NODES,
                -(len as int) * (COORD_MAX as int) <= sx <= (len as int) * (COORD_MAX as int),
                -(len as int) * (COORD_MAX as int) <= sy <= (len as int) * (COORD_MAX as int),
                best_key == spec_center_key(*problem, cluster@, rest@[best as int]),
                forall|j: int|
                    0 <= j < best ==> spec_center_key(*problem, cluster@, #[trigger] rest@[j])
                        > best_key,
                forall|j: int|
                    best <= j < i ==> spec_center_key(*problem, cluster@, #[trigger] rest@[j])
                        >= best_key,
            decreases rest@.len() - i,
        {
            let key = self.center_key(problem, rest[i], len, sx, sy);
            if key < best_key {
                best = i;
                best_key = key;
            }
            i += 1;
        }
        best
    }
}

/// Reads one node of the instance by index.
fn self_node(problem: &Instance, i: usize) -> (n: Node)
    requires
        i < problem.nodes@.len(),
    ensures
        n == problem.nodes@[i as int],
{
    problem.nodes[i]
}

/// Removing one entry of a duplicate-free sequence removes exactly that
/// value's membership.
proof fn lemma_remove_membership(s: Seq<usize>, i: int)
    requires
        0 <= i < s.len(),
        no_dups(s),
    ensures
        forall|id: usize| #[trigger] s.remove(i).contains(id) <==> (s.contains(id) && id != s[i]),
        no_dups(s.remove(i)),
{
    let t = s.remove(i);
    s.remove_ensures(i);
    assert forall|id: usize| #[trigger] t.contains(id) implies (s.contains(id) && id != s[i]) by {
        let j = choose|j: int| 0 <= j < t.len() && t[j] == id;
        if j < i {
            assert(s[j] == id);
        } else {
            assert(s[j + 1] == id);
        }
    }
    assert forall|id: usize| s.contains(id) && id != s[i] implies #[trigger] t.contains(id) by {
        let j = choose|j: int| 0 <= j < s.len() && s[j] == id;
        if j < i {
            assert(t[j] == id);
        } else {
            assert(j > i);
            assert(t[j - 1] == id);
        }
    }
    assert forall|a: int, b: int| 0 <= a < b < t.len() implies t[a] != t[b] by {
        let sa: int = if a < i {
            a
        } else {
            a + 1
        };
        let sb: int = if b < i {
            b
        } else {
            b + 1
        };
        assert(t[a] == s[sa]);
        assert(t[b] == s[sb]);
    }
}

/// `i` is the index the greedy strategy picks among the unassigned
/// nodes: strictly nearer to the cluster's centroid than every earlier
/// candidate, and no farther than every later one.
pub open spec fn is_first_nearest(inst: Instance, cluster: Seq<usize>, na: Seq<usize>, i: int) -> bool {
    &&& 0 <= i < na.len()
    &&& (forall|j: int|
        0 <= j < i ==> spec_center_key(inst, cluster, #[trigger] na[j]) > spec_center_key(
            inst,
            cluster,
            na[i],
        ))
    &&& (forall|j: int|
        i <= j < na.len() ==> spec_center_key(inst, cluster, #[trigger] na[j]) >= spec_center_key(
            inst,
            cluster,
            na[i],
        ))
}

/// At most one index is the first nearest.
proof fn lemma_first_nearest_unique(
    inst: Instance,
    cluster: Seq<usize>,
    na: Seq<usize>,
    i1: int,
    i2: int,
)
    requires
        is_first_nearest(inst, cluster, na, i1),
        is_first_nearest(inst, cluster, na, i2),
    ensures
        i1 == i2,
{
    if i1 < i2 {
        assert(spec_center_key(inst, cluster, na[i1]) > spec_center_key(inst, cluster, na[i2]));
        assert(spec_center_key(inst, cluster, na[i2]) >= spec_center_key(inst, cluster, na[i1]));
    }
    if i2 < i1 {
        assert(spec_center_key(inst, cluster, na[i2]) > spec_center_key(inst, cluster, na[i1]));
        assert(spec_center_key(inst, cluster, na[i1]) >= spec_center_key(inst, cluster, na[i2]));
    }
}

/// The index the greedy strategy picks among the unassigned nodes.
pub open spec fn spec_nearest_idx(inst: Instance, cluster: Seq<usize>, na: Seq<usize>) -> int {
    if exists|i: int| is_first_nearest(inst, cluster, na, i) {
        choose|i: int| is_first_nearest(inst, cluster, na, i)
    } else {
        0
    }
}

proof fn lemma_nearest_in_range(inst: Instance, cluster: Seq<usize>, na: Seq<usize>)
    requires
        na.len() >= 1,
    ensures
        0 <= spec_nearest_idx(inst, cluster, na) < na.len(),
{
    if exists|i: int| is_first_nearest(inst, cluster, na, i) {
        let i = choose|i: int| is_first_nearest(inst, cluster, na, i);
        assert(0 <= i < na.len());
    }
}

/// One cluster grown greedily: while the nearest unassigned node still
/// fits the capacity it moves into the cluster, and the first unfitting
/// nearest node stops the growth.
pub open spec fn spec_grow(inst: Instance, na: Seq<usize>, cluster: Seq<usize>) -> (
    Seq<usize>,
    Seq<usize>,
)
    decreases na.len(),
    via spec_grow_dec
{
    if na.len() == 0 {
        (cluster, na)
    } else {
        let i = spec_nearest_idx(inst, cluster, na);
        if spec_cluster_demand(inst, cluster) + inst.spec_demand_of(na[i]) <= inst.capacity {
            spec_grow(inst, na.remove(i), cluster.push(na[i]))
        } else {
            (cluster, na)
        }
    }
}

#[via_fn]
proof fn spec_grow_dec(inst: Instance, na: Seq<usize>, cluster: Seq<usize>) {
    if na.len() != 0 {
        lemma_nearest_in_range(inst, cluster, na);
        na.remove_ensures(spec_nearest_idx(inst, cluster, na));
    }
}

/// Growing a cluster conserves the nodes: what leaves the unassigned
/// list enters the cluster.
proof fn lemma_grow_len(inst: Instance, na: Seq<usize>, cluster: Seq<usize>)
    ensures
        spec_grow(inst, na, cluster).0.len() + spec_grow(inst, na, cluster).1.len() == na.len()
            + cluster.len(),
    decreases na.len(),
{
    if na.len() != 0 {
        let i = spec_nearest_idx(inst, cluster, na);
        lemma_nearest_in_range(inst, cluster, na);
        if spec_cluster_demand(inst, cluster) + inst.spec_demand_of(na[i]) <= inst.capacity {
            na.remove_ensures(i);
            lemma_grow_len(inst, na.remove(i), cluster.push(na[i]));
        }
    }
}

/// The clusters the greedy strategy produces from the given unassigned
/// nodes: grow one cluster, then continue with what remains; growth
/// that places nothing means a node no cluster can take, and nothing
/// further is produced.
pub open spec fn spec_greedy_from(inst: Instance, na: Seq<usize>) -> Seq<Seq<usize>>
    decreases na.len(),
    via spec_greedy_from_dec
{
    if na.len() == 0 {
        Seq::empty()
    } else {
        let gr = spec_grow(inst, na, Seq::empty());
        if gr.0.len() == 0 {
            Seq::empty()
        } else {
            seq![gr.0] + spec_greedy_from(inst, gr.1)
        }
    }
}

#[via_fn]
proof fn spec_greedy_from_dec(inst: Instance, na: Seq<usize>) {
    if na.len() != 0 {
        lemma_grow_len(inst, na, Seq::empty());
    }
}

/// The clusters the greedy strategy produces for an instance.
pub open spec fn spec_greedy_clusters(inst: Instance) -> Seq<Seq<usize>> {
    spec_greedy_from(inst, inst.customer_seq())
}

impl ClusterTspClustering {
    /// Grows one cluster around the unassigned nodes: repeatedly adds the
    /// node nearest to the running centroid while the cluster's demand
    /// stays within capacity. Fails only when the first candidate's
    /// demand alone exceeds the capacity, in which case that node could
    /// never be placed in any cluster.
    fn grow_cluster(&self, problem: &Instance, rest: &mut Vec<usize>) -> (r: Result<
        Vec<usize>,
        VrpError,
    >)
        requires
            problem.wf(),
            old(rest)@.len() >= 1,
            old(rest)@.len() <= MAX_NODES,
            no_dups(old(rest)@),
            forall|i: int|
                0 <= i < old(rest)@.len() ==> problem.spec_is_customer(#[trigger] old(rest)@[i]),
        ensures
            r matches Ok(c) ==> {
                &&& c@.len() >= 1
                &&& no_dups(c@)
                &&& (forall|i: int|
                    0 <= i < c@.len() ==> problem.spec_is_customer(#[trigger] c@[i]))
                &&& spec_cluster_demand(*problem, c@) <= problem.capacity
                &&& no_dups(final(rest)@)
                &&& (forall|i: int|
                    0 <= i < final(rest)@.len() ==> problem.spec_is_customer(
                        #[trigger] final(rest)@[i],
                    ))
                &&& (forall|id: usize|
                    old(rest)@.contains(id) <==> (final(rest)@.contains(id) || c@.contains(id)))
                &&& (forall|id: usize| !(final(rest)@.contains(id) && c@.contains(id)))
                &&& final(rest)@.len() + c@.len() == old(rest)@.len()
                &&& c@ == spec_grow(*problem, old(rest)@, Seq::empty()).0
                &&& final(rest)@ == spec_grow(*problem, old(rest)@, Seq::empty()).1
            },
            r matches Err(e) ==> e == VrpError::Infeasible && (exists|id: usize|
                old(rest)@.contains(id) && problem.spec_demand_of(id) > problem.capacity),
    {
        let ghost na0 = rest@;
        let mut cluster: Vec<usize> = Vec::new();
        loop
            invariant
                problem.wf(),
                na0.len() >= 1,
                na0.len() <= MAX_NODES,
                no_dups(rest@),
                no_dups(cluster@),
                forall|i: int|
                    0 <= i < rest@.len() ==> problem.spec_is_customer(#[trigger] rest@[i]),
                forall|i: int|
                    0 <= i < cluster@.len() ==> problem.spec_is_customer(#[trigger] cluster@[i]),
                forall|id: usize|
                    na0.contains(id) <==> (rest@.contains(id) || cluster@.contains(id)),
                forall|id: usize| !(rest@.contains(id) && cluster@.contains(id)),
                rest@.len() + cluster@.len() == na0.len(),
                spec_cluster_demand(*problem, cluster@) <= problem.capacity,
                spec_grow(*problem, na0, Seq::empty()) == spec_grow(*problem, rest@, cluster@),
            ensures
                no_dups(rest@),
                no_dups(cluster@),
                forall|i: int|
                    0 <= i < rest@.len() ==> problem.spec_is_customer(#[trigger] rest@[i]),
                forall|i: int|
                    0 <= i < cluster@.len() ==> problem.spec_is_customer(#[trigger] cluster@[i]),
                forall|id: usize|
                    na0.contains(id) <==> (rest@.contains(id) || cluster@.contains(id)),
                forall|id: usize| !(rest@.contains(id) && cluster@.contains(id)),
                rest@.len() + cluster@.len() == na0.len(),
                spec_cluster_demand(*problem, cluster@) <= problem.capacity,
                cluster@.len() == 0 ==> (exists|id: usize|
                    na0.contains(id) && problem.spec_demand_of(id) > problem.capacity),
                spec_grow(*problem, na0, Seq::empty()) == (cluster@, rest@),
            decreases rest@.len(),
        {
            if rest.len() == 0 {
                proof {
                    if cluster@.len() == 0 {
                        assert(na0.contains(na0[0]));
                        assert(false);
                    }
                    assert(spec_grow(*problem, rest@, cluster@) == (cluster@, rest@));
                }
                break ;
            }
            let ci = self.nearest_index(problem, rest, &cluster);
            proof {
                assert(is_first_nearest(*problem, cluster@, rest@, ci as int));
                assert(spec_nearest_idx(*problem, cluster@, rest@) == ci as int) by {
                    assert(exists|i: int| is_first_nearest(*problem, cluster@, rest@, i)) by {
                        assert(is_first_nearest(*problem, cluster@, rest@, ci as int));
                    }
                    let w = choose|i: int| is_first_nearest(*problem, cluster@, rest@, i);
                    lemma_first_nearest_unique(*problem, cluster@, rest@, w, ci as int);
                }
            }
            let cand = rest[ci];
            let cand_demand = match problem.demand_of(cand) {
                Some(d) => d,
                None => {
                    proof {
                        assert(problem.spec_is_customer(rest@[ci as int]));
                    }
                    unreached()
                },
            };
            let cd = self.cluster_demand(problem, &cluster);
            if cand_demand as u128 + cd <= problem.capacity as u128 {
                proof {
                    lemma_demand_push(*problem, cluster@, cand);
                    lemma_remove_membership(rest@, ci as int);
                    assert(rest@.contains(rest@[ci as int]));
                }
                let ghost old_rest = rest@;
                let ghost old_cluster = cluster@;
                proof {
                    assert(spec_grow(*problem, old_rest, old_cluster) == spec_grow(
                        *problem,
                        old_rest.remove(ci as int),
                        old_cluster.push(cand),
                    ));
                }
                cluster.push(cand);
                rest.remove(ci);
                proof {
                    assert(forall|id: usize|
                        #[trigger] cluster@.contains(id) <==> (old_cluster.contains(id) || id
                            == cand)) by {
                        assert(cluster@ == old_cluster.push(cand));
                        assert forall|id: usize| #[trigger] cluster@.contains(id) implies (
                        old_cluster.contains(id) || id == cand) by {
                            let j = choose|j: int|
                                0 <= j < cluster@.len() && cluster@[j] == id;
                            if j < old_cluster.len() {
                                assert(old_cluster[j] == id);
                            }
                        }
                        assert forall|id: usize|
                            old_cluster.contains(id) || id == cand implies #[trigger] cluster@
                            .contains(id) by {
                            if old_cluster.contains(id) {
                                let j = choose|j: int|
                                    0 <= j < old_cluster.len() && old_cluster[j] == id;
                                assert(cluster@[j] == id);
                            } else {
                                assert(cluster@[old_cluster.len() as int] == id);
                            }
                        }
                    }
                    assert(!old_cluster.contains(cand));
                    assert forall|a: int, b: int|
                        0 <= a < b < cluster@.len() implies cluster@[a] != cluster@[b] by {
                        if b == cluster@.len() - 1 {
                            assert(cluster@[a] == old_cluster[a]);
                            assert(old_cluster.contains(cluster@[a]));
                            assert(cluster@[b] == cand);
                        } else {
                            assert(cluster@[a] == old_cluster[a]);
                            assert(cluster@[b] == old_cluster[b]);
                        }
                    }
                    assert forall|i: int|
                        0 <= i < cluster@.len() implies problem.spec_is_customer(
                        #[trigger] cluster@[i],
                    ) by {
                        if i < old_cluster.len() {
                            assert(cluster@[i] == old_cluster[i]);
                        } else {
                            assert(cluster@[i] == cand);
                            assert(problem.spec_is_customer(old_rest[ci as int]));
                        }
                    }
                }
            } else {
                proof {
                    if cluster@.len() == 0 {
                        assert(spec_cluster_demand(*problem, cluster@) == 0);
                        assert(rest@.contains(rest@[ci as int]));
                        assert(na0.contains(rest@[ci as int]));
                        assert(problem.spec_demand_of(rest@[ci as int]) > problem.capacity);
                    }
                    assert(spec_grow(*problem, rest@, cluster@) == (cluster@, rest@));
                }
                break ;
            }
        }
        if cluster.len() == 0 {
            return Err(VrpError::Infeasible);
        }
        Ok(cluster)
    }

    /// Clusters the customers of an instance: repeatedly starts a cluster
    /// at the first unassigned node and grows it greedily under the
    /// capacity bound.
    ///
    /// Succeeds exactly when every customer's demand fits the capacity,
    /// and then returns nonempty clusters that partition the customers,
    /// each within capacity.
    #[verifier::rlimit(50)]
    pub fn cluster(&self, problem: &Instance) -> (r: Result<ClusterOutput, VrpError>)
        requires
            problem.wf(),
        ensures
            r is Ok <==> (forall|id: usize|
                problem.spec_is_customer(id) ==> problem.spec_demand_of(id) <= problem.capacity),
            r matches Ok(cs) ==> {
                &&& is_partition_of(cs.deep_view(), *problem)
                &&& clusters_within_capacity(cs.deep_view(), *problem)
                &&& (forall|k: int| 0 <= k < cs@.len() ==> (#[trigger] cs.deep_view()[k]).len() >= 1)
                &&& cs.deep_view() == spec_greedy_clusters(*problem)
            },
            r matches Err(e) ==> e == VrpError::Infeasible,
    {
        let mut not_assigned: Vec<usize> = problem.customers();
        let mut assignments: Vec<Vec<usize>> = Vec::new();
        proof {
            problem.lemma_customer_seq_facts();
            assert(assignments.deep_view() + spec_greedy_from(*problem, not_assigned@)
                =~= spec_greedy_clusters(*problem));
        }
        while not_assigned.len() > 0
            invariant
                problem.wf(),
                not_assigned@.len() <= MAX_NODES,
                no_dups(not_assigned@),
                forall|i: int|
                    0 <= i < not_assigned@.len() ==> problem.spec_is_customer(
                        #[trigger] not_assigned@[i],
                    ),
                forall|k: int|
                    0 <= k < assignments.deep_view().len() ==> {
                        &&& (#[trigger] assignments.deep_view()[k]).len() >= 1
                        &&& no_dups(assignments.deep_view()[k])
                        &&& (forall|i: int|
                            0 <= i < assignments.deep_view()[k].len()
                                ==> problem.spec_is_customer(
                                #[trigger] assignments.deep_view()[k][i],
                            ))
                        &&& spec_cluster_demand(*problem, assignments.deep_view()[k])
                            <= problem.capacity
                    },
                forall|k: int, l: int, id: usize|
                    0 <= k < l < assignments.deep_view().len() ==> !(
                    #[trigger] assignments.deep_view()[k].contains(id)
                        && #[trigger] assignments.deep_view()[l].contains(id)),
                forall|k: int, id: usize|
                    0 <= k < assignments.deep_view().len() ==> !(
                    #[trigger] assignments.deep_view()[k].contains(id) && not_assigned@.contains(
                        id,
                    )),
                forall|id: usize|
                    problem.spec_is_customer(id) ==> (not_assigned@.contains(id) || exists|k: int|
                        0 <= k < assignments.deep_view().len()
                            && #[trigger] assignments.deep_view()[k].contains(id)),
                spec_greedy_clusters(*problem) == assignments.deep_view() + spec_greedy_from(
                    *problem,
                    not_assigned@,
                ),
            decreases not_assigned@.len(),
        {
            let ghost na_before = not_assigned@;
            let ghost cs_before = assignments.deep_view();
            let cluster = match self.grow_cluster(problem, &mut not_assigned) {
                Ok(c) => c,
                Err(e) => {
                    proof {
                        let bad = choose|id: usize|
                            na_before.contains(id) && problem.spec_demand_of(id)
                                > problem.capacity;
                        assert(problem.spec_is_customer(bad) && problem.spec_demand_of(bad)
                            > problem.capacity) by {
                            let j = choose|j: int|
                                0 <= j < na_before.len() && na_before[j] == bad;
                        }
                    }
                    return Err(e);
                },
            };
            let ghost c = cluster@;
            assignments.push(cluster);
            proof {
                let na_after = not_assigned@;
                let cs_after = assignments.deep_view();
                assert(cs_after.len() == cs_before.len() + 1);
                assert(cs_after[cs_before.len() as int] == c);
                assert(forall|k: int| 0 <= k < cs_before.len() ==> cs_after[k] == cs_before[k]);
                assert(spec_greedy_clusters(*problem) == cs_after + spec_greedy_from(
                    *problem,
                    na_after,
                )) by {
                    assert(spec_grow(*problem, na_before, Seq::empty()) == (c, na_after));
                    assert(na_before.len() != 0);
                    assert(c.len() >= 1);
                    assert(spec_greedy_from(*problem, na_before) == seq![c] + spec_greedy_from(
                        *problem,
                        na_after,
                    ));
                    assert(cs_after =~= cs_before.push(c));
                    assert(cs_after + spec_greedy_from(*problem, na_after) =~= cs_before + (seq![
                        c,
                    ] + spec_greedy_from(*problem, na_after)));
                }
                assert forall|k: int, l: int, id: usize|
                    0 <= k < l < cs_after.len() implies !(#[trigger] cs_after[k].contains(id)
                    && #[trigger] cs_after[l].contains(id)) by {
                    if l == cs_before.len() {
                        if cs_after[k].contains(id) && cs_after[l].contains(id) {
                            assert(cs_before[k].contains(id));
                            assert(c.contains(id));
                            assert(na_before.contains(id));
                        }
                    }
                }
                assert forall|k: int, id: usize|
                    0 <= k < cs_after.len() implies !(#[trigger] cs_after[k].contains(id)
                    && na_after.contains(id)) by {
                    if cs_after[k].contains(id) && na_after.contains(id) {
                        assert(na_before.contains(id));
                        if k < cs_before.len() {
                            assert(cs_before[k].contains(id));
                        } else {
                            assert(c.contains(id));
                        }
                    }
                }
                assert forall|id: usize|
                    problem.spec_is_customer(id) implies (na_after.contains(id) || exists|k: int|
                    0 <= k < cs_after.len() && #[trigger] cs_after[k].contains(id)) by {
                    if na_before.contains(id) {
                        if !na_after.contains(id) {
                            assert(c.contains(id));
                            assert(cs_after[cs_before.len() as int].contains(id));
                        }
                    } else {
                        let k = choose|k: int|
                            0 <= k < cs_before.len() && #[trigger] cs_before[k].contains(id);
                        assert(cs_after[k].contains(id));
                    }
                }
            }
        }
        proof {
            let cs = assignments.deep_view();
            assert(spec_greedy_from(*problem, not_assigned@) =~= Seq::<Seq<usize>>::empty());
            assert(cs =~= spec_greedy_clusters(*problem));
            assert forall|id: usize| problem.spec_is_customer(id) implies exists|k: int|
                0 <= k < cs.len() && (#[trigger] cs[k]).contains(id) by {
                assert(!not_assigned@.contains(id));
            }
            assert forall|id: usize|
                problem.spec_is_customer(id) implies problem.spec_demand_of(id)
                <= problem.capacity by {
                let k = choose|k: int| 0 <= k < cs.len() && (#[trigger] cs[k]).contains(id);
                let i = choose|i: int| 0 <= i < cs[k].len() && cs[k][i] == id;
                lemma_member_demand_le_sum(*problem, cs[k], i);
            }
        }
        Ok(assignments)
    }
}

/// The customers with the given assignment value, in order, among the
/// first `n` customers.
pub open spec fn spec_bucket_upto(ids: Seq<usize>, asg: Seq<usize>, k: usize, n: int) -> Seq<
    usize,
>
    decreases n,
{
    if n <= 0 {
        Seq::empty()
    } else {
        let p = spec_bucket_upto(ids, asg, k, n - 1);
        if asg[n - 1] == k {
            p.push(ids[n - 1])
        } else {
            p
        }
    }
}

/// The customers with the given assignment value, in order.
pub open spec fn spec_bucket(ids: Seq<usize>, asg: Seq<usize>, k: usize) -> Seq<usize> {
    spec_bucket_upto(ids, asg, k, ids.len() as int)
}

/// Bucket membership: exactly the identifiers whose position carries the
/// assignment value, without duplicates.
proof fn lemma_bucket_props(ids: Seq<usize>, asg: Seq<usize>, k: usize, n: int)
    requires
        no_dups(ids),
        ids.len() == asg.len(),
        0 <= n <= ids.len(),
    ensures
        forall|id: usize|
            #[trigger] spec_bucket_upto(ids, asg, k, n).contains(id) <==> (exists|i: int|
                0 <= i < n && ids[i] == id && asg[i] == k),
        no_dups(spec_bucket_upto(ids, asg, k, n)),
    decreases n,
{
    if n > 0 {
        lemma_bucket_props(ids, asg, k, n - 1);
        let p = spec_bucket_upto(ids, asg, k, n - 1);
        let b = spec_bucket_upto(ids, asg, k, n);
        if asg[n - 1] == k {
            assert(b == p.push(ids[n - 1]));
            assert forall|id: usize| #[trigger] b.contains(id) implies (exists|i: int|
                0 <= i < n && ids[i] == id && asg[i] == k) by {
                let j = choose|j: int| 0 <= j < b.len() && b[j] == id;
                if j < p.len() {
                    assert(p.contains(id));
                    let i = choose|i: int| 0 <= i < n - 1 && ids[i] == id && asg[i] == k;
                    assert(0 <= i < n && ids[i] == id && asg[i] == k);
                } else {
                    assert(id == ids[n - 1]);
                    assert(0 <= n - 1 < n && ids[n - 1] == id && asg[n - 1] == k);
                }
            }
            assert forall|id: usize| (exists|i: int|
                0 <= i < n && ids[i] == id && asg[i] == k) implies #[trigger] b.contains(id) by {
                let i = choose|i: int| 0 <= i < n && ids[i] == id && asg[i] == k;
                if i < n - 1 {
                    assert(p.contains(id));
                    let j = choose|j: int| 0 <= j < p.len() && p[j] == id;
                    assert(b[j] == id);
                } else {
                    assert(b[b.len() - 1] == id);
                }
            }
            assert(!p.contains(ids[n - 1])) by {
                if p.contains(ids[n - 1]) {
                    let i = choose|i: int| 0 <= i < n - 1 && ids[i] == ids[n - 1] && asg[i] == k;
                }
            }
            assert forall|a: int, c: int| 0 <= a < c < b.len() implies b[a] != b[c] by {
                if c == b.len() - 1 {
                    assert(b[a] == p[a]);
                    assert(p.contains(p[a]));
                } else {
                    assert(b[a] == p[a] && b[c] == p[c]);
                }
            }
        } else {
            assert(b == p);
            assert forall|id: usize| (exists|i: int|
                0 <= i < n && ids[i] == id && asg[i] == k) implies #[trigger] b.contains(id) by {
                let i = choose|i: int| 0 <= i < n && ids[i] == id && asg[i] == k;
                assert(0 <= i < n - 1 && ids[i] == id && asg[i] == k);
            }
        }
    }
}

/// The k-partition strategy: a fixed number of clusters, filled from an
/// externally computed assignment of each customer to a cluster index.
/// The capacity bound is not enforced here.
pub struct KNNClustering {
    pub count: usize,
}

impl KNNClustering {
    /// Buckets the customers, in order, by their assigned cluster index.
    /// Succeeds exactly when the assignment names one index below
    /// `count` for each customer.
    pub fn cluster_assignments(&self, problem: &Instance, assignments: &Vec<usize>) -> (r: Result<
        ClusterOutput,
        VrpError,
    >)
        requires
            problem.wf(),
        ensures
            r is Ok <==> (assignments@.len() == problem.customer_seq().len() && (forall|i: int|
                0 <= i < assignments@.len() ==> #[trigger] assignments@[i] < self.count)),
            r matches Ok(cs) ==> {
                &&& cs@.len() == self.count
                &&& (forall|k: int|
                    0 <= k < self.count ==> #[trigger] cs.deep_view()[k] == spec_bucket(
                        problem.customer_seq(),
                        assignments@,
                        k as usize,
                    ))
                &&& is_partition_of(cs.deep_view(), *problem)
            },
            r matches Err(e) ==> e == VrpError::BadClusterInput,
    {
        let customers = problem.customers();
        proof {
            problem.lemma_customer_seq_facts();
        }
        if assignments.len() != customers.len() {
            return Err(VrpError::BadClusterInput);
        }
        let mut i: usize = 0;
        while i < assignments.len()
            invariant
                0 <= i <= assignments@.len(),
                forall|j: int| 0 <= j < i ==> #[trigger] assignments@[j] < self.count,
            decreases assignments@.len() - i,
        {
            if assignments[i] >= self.count {
                return Err(VrpError::BadClusterInput);
            }
            i += 1;
        }
        let ghost ids = problem.customer_seq();
        let ghost asg = assignments@;
        let mut out: ClusterOutput = Vec::new();
        let mut k: usize = 0;
        while k < self.count
            invariant
                problem.wf(),
                customers@ == ids,
                asg == assignments@,
                asg.len() == ids.len(),
                0 <= k <= self.count,
                out@.len() == k,
                forall|j: int|
                    0 <= j < k ==> #[trigger] out.deep_view()[j] == spec_bucket(
                        ids,
                        asg,
                        j as usize,
                    ),
            decreases self.count - k,
        {
            let mut bucket: Vec<usize> = Vec::new();
            let mut i: usize = 0;
            while i < customers.len()
                invariant
                    customers@ == ids,
                    asg == assignments@,
                    asg.len() == ids.len(),
                    0 <= i <= ids.len(),
                    bucket@ == spec_bucket_upto(ids, asg, k, i as int),
                decreases customers@.len() - i,
            {
                if assignments[i] == k {
                    bucket.push(customers[i]);
                }
                i += 1;
            }
            let ghost out_before = out.deep_view();
            out.push(bucket);
            proof {
                assert(out.deep_view().len() == out_before.len() + 1);
                assert(out.deep_view()[k as int] == spec_bucket(ids, asg, k));
                assert(forall|j: int|
                    0 <= j < k ==> #[trigger] out.deep_view()[j] == out_before[j]);
            }
            k += 1;
        }
        proof {
            let cs = out.deep_view();
            assert forall|kk: int| 0 <= kk < cs.len() implies no_dups(#[trigger] cs[kk]) && (
            forall|i2: int|
                0 <= i2 < cs[kk].len() ==> problem.spec_is_customer(#[trigger] cs[kk][i2])) by {
                lemma_bucket_props(ids, asg, kk as usize, ids.len() as int);
                assert forall|i2: int|
                    0 <= i2 < cs[kk].len() implies problem.spec_is_customer(
                    #[trigger] cs[kk][i2],
                ) by {
                    assert(cs[kk].contains(cs[kk][i2]));
                    let i3 = choose|i3: int|
                        0 <= i3 < ids.len() && ids[i3] == cs[kk][i2] && asg[i3] == kk;
                }
            }
            assert forall|a: int, b: int, id: usize|
                0 <= a < b < cs.len() implies !(#[trigger] cs[a].contains(id)
                && #[trigger] cs[b].contains(id)) by {
                lemma_bucket_props(ids, asg, a as usize, ids.len() as int);
                lemma_bucket_props(ids, asg, b as usize, ids.len() as int);
                if cs[a].contains(id) && cs[b].contains(id) {
                    let i1 = choose|i1: int|
                        0 <= i1 < ids.len() && ids[i1] == id && asg[i1] == a;
                    let i2 = choose|i2: int|
                        0 <= i2 < ids.len() && ids[i2] == id && asg[i2] == b;
                    assert(i1 == i2);
                }
            }
            assert forall|id: usize| problem.spec_is_customer(id) implies exists|kk: int|
                0 <= kk < cs.len() && (#[trigger] cs[kk]).contains(id) by {
                assert(ids.contains(id));
                let i1 = choose|i1: int| 0 <= i1 < ids.len() && ids[i1] == id;
                let kk = asg[i1];
                lemma_bucket_props(ids, asg, kk, ids.len() as int);
                assert(cs[kk as int].contains(id));
            }
        }
        Ok(out)
    }
}

/// Ranks never decrease along the sequence.
pub open spec fn sorted_by_rank(s: Seq<(usize, usize)>) -> bool {
    forall|i: int, j: int| 0 <= i < j < s.len() ==> (#[trigger] s[i]).1 <= (#[trigger] s[j]).1
}

/// Sorts id-rank pairs by ascending rank, stably: pairs of equal rank
/// keep their original order.
pub fn sort_pairs_by_rank(input: Vec<(usize, usize)>) -> (r: Vec<(usize, usize)>)
    ensures
        r@ == spec_stable_sort(input@),
        sorted_by_rank(r@),
        r@.to_multiset() == input@.to_multiset(),
        r@.len() == input@.len(),
{
    let mut out: Vec<(usize, usize)> = Vec::new();
    let mut i: usize = 0;
    proof {
        assert(input@.subrange(0, 0) =~= Seq::<(usize, usize)>::empty());
    }
    while i < input.len()
        invariant
            0 <= i <= input@.len(),
            out@ == spec_stable_sort(input@.subrange(0, i as int)),
            sorted_by_rank(out@),
        decreases input@.len() - i,
    {
        let p = input[i];
        let mut pos: usize = 0;
        while pos < out.len() && out[pos].1 <= p.1
            invariant
                0 <= pos <= out@.len(),
                forall|j: int| 0 <= j < pos ==> (#[trigger] out@[j]).1 <= p.1,
            decreases out@.len() - pos,
        {
            pos += 1;
        }
        let ghost out_before = out@;
        proof {
            lemma_stable_insert_at(out@, p, pos as int);
            lemma_stable_insert_sorted(out@, p);
        }
        out.insert(pos, p);
        proof {
            assert(out@ == spec_stable_insert(out_before, p));
            assert(input@.subrange(0, i as int + 1).drop_last() =~= input@.subrange(0, i as int));
            assert(input@.subrange(0, i as int + 1).last() == input@[i as int]);
            assert(out@ == spec_stable_sort(input@.subrange(0, i as int + 1)));
        }
        i += 1;
    }
    proof {
        assert(input@.subrange(0, input@.len() as int) =~= input@);
        lemma_stable_sort_props(input@);
    }
    out
}

/// Where a pair goes in a rank-sorted sequence: after every pair of
/// equal or smaller rank, before every pair of larger rank.
pub open spec fn spec_stable_insert(s: Seq<(usize, usize)>, p: (usize, usize)) -> Seq<
    (usize, usize),
>
    decreases s.len(),
{
    if s.len() == 0 {
        seq![p]
    } else if s.last().1 <= p.1 {
        s.push(p)
    } else {
        spec_stable_insert(s.drop_last(), p).push(s.last())
    }
}

/// The stable sort by ascending rank: each pair, in order, is inserted
/// after every pair of equal or smaller rank, so pairs of equal rank
/// keep their original order.
pub open spec fn spec_stable_sort(s: Seq<(usize, usize)>) -> Seq<(usize, usize)>
    decreases s.len(),
{
    if s.len() == 0 {
        Seq::empty()
    } else {
        spec_stable_insert(spec_stable_sort(s.drop_last()), s.last())
    }
}

/// Inserting into a rank-sorted sequence at the first position of
/// larger rank is the stable insertion.
proof fn lemma_stable_insert_at(s: Seq<(usize, usize)>, p: (usize, usize), pos: int)
    requires
        sorted_by_rank(s),
        0 <= pos <= s.len(),
        forall|j: int| 0 <= j < pos ==> (#[trigger] s[j]).1 <= p.1,
        pos < s.len() ==> s[pos].1 > p.1,
    ensures
        spec_stable_insert(s, p) == s.insert(pos, p),
    decreases s.len(),
{
    if s.len() == 0 {
        assert(spec_stable_insert(s, p) =~= s.insert(0, p));
    } else if s.last().1 <= p.1 {
        assert(pos == s.len()) by {
            if pos < s.len() {
                assert(s[pos].1 <= s[s.len() - 1].1);
            }
        }
        assert(spec_stable_insert(s, p) =~= s.insert(s.len() as int, p));
    } else {
        assert(pos < s.len()) by {
            if pos == s.len() {
                assert(s[s.len() - 1].1 <= p.1);
            }
        }
        let t = s.drop_last();
        assert(sorted_by_rank(t));
        assert(forall|j: int| 0 <= j < pos ==> (#[trigger] t[j]).1 <= p.1);
        assert(pos < t.len() ==> t[pos].1 > p.1);
        lemma_stable_insert_at(t, p, pos);
        assert(spec_stable_insert(s, p) == spec_stable_insert(t, p).push(s.last()));
        assert(spec_stable_insert(t, p).push(s.last()) =~= s.insert(pos, p));
    }
}

/// Stable insertion keeps the sequence rank-sorted and adds exactly the
/// inserted pair.
proof fn lemma_stable_insert_sorted(s: Seq<(usize, usize)>, p: (usize, usize))
    requires
        sorted_by_rank(s),
    ensures
        sorted_by_rank(spec_stable_insert(s, p)),
        spec_stable_insert(s, p).to_multiset() == s.to_multiset().insert(p),
        spec_stable_insert(s, p).len() == s.len() + 1,
    decreases s.len(),
{
    broadcast use vstd::seq_lib::group_to_multiset_ensures;

    let r = spec_stable_insert(s, p);
    if s.len() == 0 {
        assert(r =~= Seq::<(usize, usize)>::empty().push(p));
        assert(r.to_multiset() =~= s.to_multiset().insert(p));
    } else if s.last().1 <= p.1 {
        assert forall|a: int, b: int| 0 <= a < b < r.len() implies (#[trigger] r[a]).1 <= (
        #[trigger] r[b]).1 by {
            if b == r.len() - 1 {
                assert(r[a] == s[a]);
                assert(s[a].1 <= s[s.len() - 1].1);
            }
        }
    } else {
        let t = s.drop_last();
        assert(sorted_by_rank(t));
        lemma_stable_insert_sorted(t, p);
        let q = spec_stable_insert(t, p);
        assert(r == q.push(s.last()));
        assert forall|a: int, b: int| 0 <= a < b < r.len() implies (#[trigger] r[a]).1 <= (
        #[trigger] r[b]).1 by {
            if b == r.len() - 1 {
                assert(r[a] == q[a]);
                assert(q.to_multiset().contains(q[a])) by {
                    assert(q.contains(q[a]));
                }
                assert(t.to_multiset().insert(p).contains(q[a]));
                if t.to_multiset().contains(q[a]) {
                    assert(t.contains(q[a]));
                    let j = choose|j: int| 0 <= j < t.len() && t[j] == q[a];
                    assert(s[j].1 <= s[s.len() - 1].1);
                } else {
                    assert(q[a] == p);
                }
            }
        }
        assert(s.to_multiset() =~= t.to_multiset().insert(s.last())) by {
            assert(t.push(s.last()) =~= s);
            assert(t.push(s.last()).to_multiset() =~= t.to_multiset().insert(s.last()));
        }
        assert(r.to_multiset() =~= s.to_multiset().insert(p));
    }
}

/// The stable sort is rank-sorted and a permutation.
proof fn lemma_stable_sort_props(s: Seq<(usize, usize)>)
    ensures
        sorted_by_rank(spec_stable_sort(s)),
        spec_stable_sort(s).to_multiset() == s.to_multiset(),
        spec_stable_sort(s).len() == s.len(),
    decreases s.len(),
{
    broadcast use vstd::seq_lib::group_to_multiset_ensures;

    if s.len() != 0 {
        let t = s.drop_last();
        lemma_stable_sort_props(t);
        lemma_stable_insert_sorted(spec_stable_sort(t), s.last());
        assert(s.to_multiset() =~= t.to_multiset().insert(s.last())) by {
            assert(t.push(s.last()) =~= s);
            assert(t.push(s.last()).to_multiset() =~= t.to_multiset().insert(s.last()));
        }
        assert(spec_stable_sort(s).to_multiset() =~= s.to_multiset());
    }
}

/// Whether an entry equal to `id` occurs in a cluster before the point
/// `(k, i)`, walking clusters in order and each cluster front to back.
pub open spec fn seen_before(cs: Seq<Seq<usize>>, k: int, i: int, id: usize) -> bool {
    exists|k2: int, i2: int|
        0 <= k2 < cs.len() && 0 <= i2 < cs[k2].len() && (k2 < k || (k2 == k && i2 < i)) && (
        #[trigger] cs[k2][i2]) == id
}

/// Decides whether the clusters partition the customers of the
/// instance; `is_partition_of` is its specification.
pub fn check_partition(problem: &Instance, cs: &ClusterOutput) -> (b: bool)
    requires
        problem.wf(),
    ensures
        b == is_partition_of(cs.deep_view(), *problem),
{
    let ghost dcs = cs.deep_view();
    let mut used: Vec<bool> = Vec::new();
    let mut t: usize = 0;
    while t < problem.nodes.len()
        invariant
            0 <= t <= problem.nodes@.len(),
            used@.len() == t,
            forall|j: int| 0 <= j < t ==> !(#[trigger] used@[j]),
        decreases problem.nodes@.len() - t,
    {
        used.push(false);
        t += 1;
    }
    let mut k: usize = 0;
    while k < cs.len()
        invariant
            problem.wf(),
            dcs == cs.deep_view(),
            dcs.len() == cs@.len(),
            forall|j: int| 0 <= j < cs@.len() ==> (#[trigger] dcs[j]) == cs@[j]@,
            0 <= k <= cs@.len(),
            used@.len() == problem.nodes@.len(),
            forall|j: int|
                0 <= j < problem.nodes@.len() ==> (#[trigger] used@[j]) == seen_before(
                    dcs,
                    k as int,
                    0,
                    problem.nodes@[j].id,
                ),
            forall|k2: int, i2: int|
                0 <= k2 < k && 0 <= i2 < (#[trigger] dcs[k2]).len() ==> problem.spec_is_customer(
                    #[trigger] dcs[k2][i2],
                ),
            forall|k1: int, i1: int, k2: int, i2: int|
                0 <= k1 < k && 0 <= i1 < dcs[k1].len() && 0 <= k2 < k && 0 <= i2 < dcs[k2].len()
                    && (k1 != k2 || i1 != i2) ==> (#[trigger] dcs[k1][i1]) != (
                #[trigger] dcs[k2][i2]),
        decreases cs@.len() - k,
    {
        let cluster = &cs[k];
        let mut i: usize = 0;
        while i < cluster.len()
            invariant
                problem.wf(),
                dcs == cs.deep_view(),
                dcs.len() == cs@.len(),
                forall|j: int| 0 <= j < cs@.len() ==> (#[trigger] dcs[j]) == cs@[j]@,
                0 <= k < cs@.len(),
                cluster@ == dcs[k as int],
                0 <= i <= cluster@.len(),
                used@.len() == problem.nodes@.len(),
                forall|j: int|
                    0 <= j < problem.nodes@.len() ==> (#[trigger] used@[j]) == seen_before(
                        dcs,
                        k as int,
                        i as int,
                        problem.nodes@[j].id,
                    ),
                forall|k2: int, i2: int|
                    0 <= k2 < cs@.len() && 0 <= i2 < (#[trigger] dcs[k2]).len() && (k2 < k || (k2
                        == k && i2 < i)) ==> problem.spec_is_customer(#[trigger] dcs[k2][i2]),
                forall|k1: int, i1: int, k2: int, i2: int|
                    0 <= k1 < cs@.len() && 0 <= i1 < dcs[k1].len() && 0 <= k2 < cs@.len() && 0
                        <= i2 < dcs[k2].len() && (k1 < k || (k1 == k && i1 < i)) && (k2 < k || (k2
                        == k && i2 < i)) && (k1 != k2 || i1 != i2) ==> (#[trigger] dcs[k1][i1])
                        != (#[trigger] dcs[k2][i2]),
            decreases cluster@.len() - i,
        {
            let id = cluster[i];
            let ni = match problem.find_node(id) {
                Some(ni) => ni,
                None => {
                    proof {
                        assert(!problem.spec_is_customer(dcs[k as int][i as int]));
                    }
                    return false;
                },
            };
            proof {
                let kk = problem.spec_node_idx(id);
                assert(problem.nodes@[kk].id == id);
                assert(kk == ni);
            }
            if problem.contains_depot(id) {
                proof {
                    assert(!problem.spec_is_customer(dcs[k as int][i as int]));
                }
                return false;
            }
            if used[ni] {
                proof {
                    let (k2, i2) = choose|k2: int, i2: int|
                        0 <= k2 < dcs.len() && 0 <= i2 < dcs[k2].len() && (k2 < k as int || (k2
                            == k as int && i2 < i as int)) && (#[trigger] dcs[k2][i2]) == id;
                    if k2 == k as int {
                        assert(!no_dups(dcs[k as int]));
                    } else {
                        assert(dcs[k2].contains(id));
                        assert(dcs[k as int].contains(id)) by {
                            assert(dcs[k as int][i as int] == id);
                        }
                        assert(!is_partition_of(dcs, *problem));
                    }
                }
                return false;
            }
            used.set(ni, true);
            proof {
                assert forall|j: int|
                    0 <= j < problem.nodes@.len() implies (#[trigger] used@[j]) == seen_before(
                    dcs,
                    k as int,
                    i as int + 1,
                    problem.nodes@[j].id,
                ) by {
                    let nid = problem.nodes@[j].id;
                    if j == ni {
                        assert(dcs[k as int][i as int] == nid);
                        assert(seen_before(dcs, k as int, i as int + 1, nid));
                    } else {
                        if seen_before(dcs, k as int, i as int + 1, nid) {
                            let (k2, i2) = choose|k2: int, i2: int|
                                0 <= k2 < dcs.len() && 0 <= i2 < dcs[k2].len() && (k2 < k as int || (
                                k2 == k as int && i2 < i as int + 1)) && (#[trigger] dcs[k2][i2])
                                    == nid;
                            if k2 == k as int && i2 == i as int {
                                assert(nid == id);
                                assert(problem.nodes@[j].id == problem.nodes@[ni as int].id);
                                assert(j == ni);
                            } else {
                                assert(seen_before(dcs, k as int, i as int, nid));
                            }
                        }
                        if seen_before(dcs, k as int, i as int, nid) {
                            let (k2, i2) = choose|k2: int, i2: int|
                                0 <= k2 < dcs.len() && 0 <= i2 < dcs[k2].len() && (k2 < k as int || (
                                k2 == k as int && i2 < i as int)) && (#[trigger] dcs[k2][i2])
                                    == nid;
                            assert(seen_before(dcs, k as int, i as int + 1, nid));
                        }
                    }
                }
                assert forall|k1: int, i1: int, k2: int, i2: int|
                    0 <= k1 < cs@.len() && 0 <= i1 < dcs[k1].len() && 0 <= k2 < cs@.len() && 0
                        <= i2 < dcs[k2].len() && (k1 < k || (k1 == k && i1 < i + 1)) && (k2 < k
                        || (k2 == k && i2 < i + 1)) && (k1 != k2 || i1 != i2) implies (
                    #[trigger] dcs[k1][i1]) != (#[trigger] dcs[k2][i2]) by {
                    if k1 == k as int && i1 == i as int {
                        if dcs[k1][i1] == dcs[k2][i2] {
                            assert(seen_before(dcs, k as int, i as int, id));
                            assert(used@[ni as int] || true);
                            let jj = ni as int;
                            assert(problem.nodes@[jj].id == id);
                        }
                    } else if k2 == k as int && i2 == i as int {
                        if dcs[k1][i1] == dcs[k2][i2] {
                            assert(seen_before(dcs, k as int, i as int, id));
                        }
                    }
                }
            }
            i += 1;
        }
        k += 1;
    }
    let mut t: usize = 0;
    while t < problem.nodes.len()
        invariant
            problem.wf(),
            dcs == cs.deep_view(),
            dcs.len() == cs@.len(),
            0 <= t <= problem.nodes@.len(),
            used@.len() == problem.nodes@.len(),
            forall|j: int|
                0 <= j < problem.nodes@.len() ==> (#[trigger] used@[j]) == seen_before(
                    dcs,
                    dcs.len() as int,
                    0,
                    problem.nodes@[j].id,
                ),
            forall|k2: int, i2: int|
                0 <= k2 < dcs.len() && 0 <= i2 < (#[trigger] dcs[k2]).len()
                    ==> problem.spec_is_customer(#[trigger] dcs[k2][i2]),
            forall|k1: int, i1: int, k2: int, i2: int|
                0 <= k1 < dcs.len() && 0 <= i1 < dcs[k1].len() && 0 <= k2 < dcs.len() && 0 <= i2
                    < dcs[k2].len() && (k1 != k2 || i1 != i2) ==> (#[trigger] dcs[k1][i1]) != (
                #[trigger] dcs[k2][i2]),
            forall|j: int|
                0 <= j < t ==> !problem.spec_is_customer((#[trigger] problem.nodes@[j]).id) || (
                #[trigger] used@[j]),
        decreases problem.nodes@.len() - t,
    {
        let id = problem.nodes[t].id;
        if !used[t] && !problem.contains_depot(id) {
            proof {
                assert(problem.spec_has_node(id)) by {
                    assert(problem.nodes@[t as int].id == id);
                }
                assert(problem.spec_is_customer(id));
                if is_partition_of(dcs, *problem) {
                    let kk = choose|kk: int|
                        0 <= kk < dcs.len() && (#[trigger] dcs[kk]).contains(id);
                    let ii = choose|ii: int| 0 <= ii < dcs[kk].len() && dcs[kk][ii] == id;
                    assert(seen_before(dcs, dcs.len() as int, 0, id));
                }
            }
            return false;
        }
        t += 1;
    }
    proof {
        assert forall|kk: int| 0 <= kk < dcs.len() implies no_dups(#[trigger] dcs[kk]) && (forall|
            i2: int,
        | 0 <= i2 < dcs[kk].len() ==> problem.spec_is_customer(#[trigger] dcs[kk][i2])) by {
            assert forall|a: int, b: int| 0 <= a < b < dcs[kk].len() implies dcs[kk][a] != dcs[
            kk][b] by {}
        }
        assert forall|a: int, b: int, id: usize|
            0 <= a < b < dcs.len() implies !(#[trigger] dcs[a].contains(id)
            && #[trigger] dcs[b].contains(id)) by {
            if dcs[a].contains(id) && dcs[b].contains(id) {
                let i1 = choose|i1: int| 0 <= i1 < dcs[a].len() && dcs[a][i1] == id;
                let i2 = choose|i2: int| 0 <= i2 < dcs[b].len() && dcs[b][i2] == id;
            }
        }
        assert forall|id: usize| problem.spec_is_customer(id) implies exists|kk: int|
            0 <= kk < dcs.len() && (#[trigger] dcs[kk]).contains(id) by {
            let j = problem.spec_node_idx(id);
            assert(problem.nodes@[j].id == id);
            assert(used@[j]);
            assert(seen_before(dcs, dcs.len() as int, 0, id));
            let (k2, i2) = choose|k2: int, i2: int|
                0 <= k2 < dcs.len() && 0 <= i2 < dcs[k2].len() && (k2 < dcs.len() as int || (k2
                    == dcs.len() as int && i2 < 0)) && (#[trigger] dcs[k2][i2]) == id;
            assert(dcs[k2].contains(id));
        }
    }
    true
}

/// The externally-supplied-assignment strategy: reproduces a grouping
/// read from an auxiliary mapping file.
pub struct FileClustering {
    pub map_file_path: String,
}

/// The identifiers of a sequence of id-rank pairs, in order.
pub open spec fn ids_of(s: Seq<(usize, usize)>) -> Seq<usize> {
    s.map_values(|p: (usize, usize)| p.0)
}

/// The identifiers of each group's pairs, in group order.
pub open spec fn spec_group_ids(gs: Seq<Seq<(usize, usize)>>) -> Seq<Seq<usize>> {
    gs.map_values(|g: Seq<(usize, usize)>| ids_of(g))
}

impl FileClustering {
    /// Reproduces the grouping given as id-rank pairs: each group is
    /// stably sorted by ascending rank and its identifiers become one
    /// cluster, so pairs of equal rank keep the given order. Succeeds
    /// exactly when the groups cover the customers of the instance once
    /// each.
    pub fn cluster_pairs(&self, problem: &Instance, groups: Vec<Vec<(usize, usize)>>) -> (r:
        Result<ClusterOutput, VrpError>)
        requires
            problem.wf(),
        ensures
            r is Ok <==> is_partition_of(spec_group_ids(groups.deep_view()), *problem),
            r matches Ok(cs) ==> {
                &&& cs@.len() == groups@.len()
                &&& is_partition_of(cs.deep_view(), *problem)
                &&& (forall|k: int|
                    0 <= k < cs@.len() ==> #[trigger] cs.deep_view()[k] == ids_of(
                        spec_stable_sort(groups.deep_view()[k]),
                    ))
            },
            r matches Err(e) ==> e == VrpError::Infeasible,
    {
        let ghost dgroups = groups.deep_view();
        let glen = groups.len();
        let mut rest = groups;
        let mut out: ClusterOutput = Vec::new();
        let mut k: usize = 0;
        while k < glen
            invariant
                problem.wf(),
                k + rest@.len() == glen,
                dgroups.len() == glen,
                forall|j: int| 0 <= j < rest@.len() ==> (#[trigger] rest@[j])@ == dgroups[k + j],
                out@.len() == k,
                forall|j: int|
                    0 <= j < k ==> #[trigger] out.deep_view()[j] == ids_of(
                        spec_stable_sort(dgroups[j]),
                    ),
                forall|j: int, id: usize|
                    0 <= j < k ==> (#[trigger] out.deep_view()[j].contains(id)
                        <==> #[trigger] spec_group_ids(dgroups)[j].contains(id)),
                forall|j: int|
                    0 <= j < k ==> (no_dups(#[trigger] out.deep_view()[j]) <==> no_dups(
                        spec_group_ids(dgroups)[j],
                    )),
            decreases glen - k,
        {
            let group = rest.remove(0);
            let ghost dgroup = dgroups[k as int];
            let sorted = sort_pairs_by_rank(group);
            let mut ids: Vec<usize> = Vec::new();
            let mut i: usize = 0;
            while i < sorted.len()
                invariant
                    0 <= i <= sorted@.len(),
                    ids@ == ids_of(sorted@.subrange(0, i as int)),
                decreases sorted@.len() - i,
            {
                let p = sorted[i];
                ids.push(p.0);
                proof {
                    assert(sorted@.subrange(0, i as int + 1).drop_last() =~= sorted@.subrange(
                        0,
                        i as int,
                    ));
                    assert(ids@ =~= ids_of(sorted@.subrange(0, i as int + 1)));
                }
                i += 1;
            }
            proof {
                assert(sorted@.subrange(0, sorted@.len() as int) =~= sorted@);
                lemma_mapped_ids_membership(sorted@, dgroup);
            }
            let ghost out_before = out.deep_view();
            out.push(ids);
            proof {
                assert(out.deep_view().len() == out_before.len() + 1);
                assert(forall|j: int|
                    0 <= j < out_before.len() ==> #[trigger] out.deep_view()[j] == out_before[j]);
                assert(out.deep_view()[k as int] == ids_of(sorted@));
                assert(spec_group_ids(dgroups)[k as int] == ids_of(dgroup));
                assert(out.deep_view()[k as int] == ids_of(spec_stable_sort(dgroup)));
                assert forall|j: int| 0 <= j < rest@.len() implies (#[trigger] rest@[j])@
                    == dgroups[k + 1 + j] by {}
            }
            k += 1;
        }
        let ok = check_partition(problem, &out);
        proof {
            lemma_partition_same_members(out.deep_view(), spec_group_ids(dgroups), *problem);
        }
        if ok {
            Ok(out)
        } else {
            Err(VrpError::Infeasible)
        }
    }
}

/// A rank-sorted permutation of a group holds the same identifiers, with
/// duplicates if and only if the group has them.
proof fn lemma_mapped_ids_membership(s: Seq<(usize, usize)>, g: Seq<(usize, usize)>)
    requires
        s.to_multiset() == g.to_multiset(),
    ensures
        forall|id: usize| #[trigger] ids_of(s).contains(id) <==> ids_of(g).contains(id),
        no_dups(ids_of(s)) <==> no_dups(ids_of(g)),
{
    lemma_mapped_ids_one_way(s, g);
    lemma_mapped_ids_one_way(g, s);
}

/// One direction of `lemma_mapped_ids_membership`.
proof fn lemma_mapped_ids_one_way(s: Seq<(usize, usize)>, g: Seq<(usize, usize)>)
    requires
        s.to_multiset() == g.to_multiset(),
    ensures
        forall|id: usize| #[trigger] ids_of(s).contains(id) ==> ids_of(g).contains(id),
        no_dups(ids_of(g)) ==> no_dups(ids_of(s)),
{
    broadcast use vstd::seq_lib::group_to_multiset_ensures;

    let ms = ids_of(s);
    let mg = ids_of(g);
    assert forall|id: usize| ms.contains(id) implies mg.contains(id) by {
        let i = choose|i: int| 0 <= i < ms.len() && ms[i] == id;
        let p = s[i];
        assert(s.to_multiset().count(p) > 0) by {
            assert(s.contains(p));
        }
        assert(g.contains(p));
        let j = choose|j: int| 0 <= j < g.len() && g[j] == p;
        assert(mg[j] == id);
    }
    if no_dups(mg) {
        assert forall|a: int, b: int| 0 <= a < b < ms.len() implies ms[a] != ms[b] by {
            if ms[a] == ms[b] {
                let pa = s[a];
                let pb = s[b];
                if pa == pb {
                    lemma_dup_pair_count(s, a, b);
                    assert(g.to_multiset().count(pa) >= 2);
                    lemma_count_two_dup(g, pa);
                    let (ja, jb) = choose|ja: int, jb: int|
                        0 <= ja < jb < g.len() && g[ja] == pa && g[jb] == pa;
                    assert(mg[ja] == mg[jb]);
                } else {
                    assert(g.contains(pa)) by {
                        assert(s.contains(pa));
                        assert(s.to_multiset().count(pa) > 0);
                    }
                    assert(g.contains(pb)) by {
                        assert(s.contains(pb));
                        assert(s.to_multiset().count(pb) > 0);
                    }
                    let ja = choose|ja: int| 0 <= ja < g.len() && g[ja] == pa;
                    let jb = choose|jb: int| 0 <= jb < g.len() && g[jb] == pb;
                    assert(ja != jb);
                    assert(mg[ja] == mg[jb]);
                    if ja < jb {
                    } else {
                    }
                }
            }
        }
    }
}

/// Two equal entries give a multiset count of at least two.
proof fn lemma_dup_pair_count(s: Seq<(usize, usize)>, a: int, b: int)
    requires
        0 <= a < b < s.len(),
        s[a] == s[b],
    ensures
        s.to_multiset().count(s[a]) >= 2,
{
    broadcast use vstd::seq_lib::group_to_multiset_ensures;

    let t = s.remove(b);
    s.remove_ensures(b);
    assert(t.to_multiset() =~= s.to_multiset().remove(s[b]));
    assert(t[a] == s[a]);
    assert(t.contains(s[a]));
    assert(t.to_multiset().count(s[a]) > 0);
}

/// A multiset count of at least two gives two equal entries.
proof fn lemma_count_two_dup(g: Seq<(usize, usize)>, p: (usize, usize))
    requires
        g.to_multiset().count(p) >= 2,
    ensures
        exists|ja: int, jb: int| 0 <= ja < jb < g.len() && g[ja] == p && g[jb] == p,
{
    broadcast use vstd::seq_lib::group_to_multiset_ensures;

    assert(g.contains(p)) by {
        assert(g.to_multiset().count(p) > 0);
    }
    let ja = choose|ja: int| 0 <= ja < g.len() && g[ja] == p;
    let t = g.remove(ja);
    g.remove_ensures(ja);
    assert(t.to_multiset() =~= g.to_multiset().remove(p));
    assert(t.to_multiset().count(p) >= 1);
    assert(t.contains(p));
    let jt = choose|jt: int| 0 <= jt < t.len() && t[jt] == p;
    if jt < ja {
        assert(g[jt] == p);
        assert(0 <= jt < ja < g.len() && g[jt] == p && g[ja] == p);
    } else {
        assert(g[jt + 1] == p);
        assert(0 <= ja < jt + 1 < g.len() && g[ja] == p && g[jt + 1] == p);
    }
}

/// Partition-ness only depends on which identifiers each cluster holds
/// and whether it repeats any.
proof fn lemma_partition_same_members(cs1: Seq<Seq<usize>>, cs2: Seq<Seq<usize>>, inst: Instance)
    requires
        cs1.len() == cs2.len(),
        forall|k: int, id: usize|
            0 <= k < cs1.len() ==> (#[trigger] cs1[k].contains(id) <==> #[trigger] cs2[k].contains(
                id,
            )),
        forall|k: int| 0 <= k < cs1.len() ==> (no_dups(#[trigger] cs1[k]) <==> no_dups(cs2[k])),
    ensures
        is_partition_of(cs1, inst) <==> is_partition_of(cs2, inst),
{
    lemma_partition_same_members_one_way(cs1, cs2, inst);
    lemma_partition_same_members_one_way(cs2, cs1, inst);
}

/// Input a clustering strategy may need from outside the library: a
/// computed per-customer assignment, or the id-rank groups read from a
/// mapping file.
pub enum ClusterAux {
    Unused,
    Assignments(Vec<usize>),
    MappingGroups(Vec<Vec<(usize, usize)>>),
}

/// The clustering strategies, as one closed family.
pub enum ClusterStrategy {
    Tsp(ClusterTspClustering),
    Knn(KNNClustering),
    File(FileClustering),
}

impl ClusterStrategy {
    /// Clusters the instance's customers by the chosen strategy. Every
    /// successful result partitions the customers; the greedy strategy
    /// additionally keeps every cluster within capacity.
    pub fn cluster(&self, problem: &Instance, aux: ClusterAux) -> (r: Result<
        ClusterOutput,
        VrpError,
    >)
        requires
            problem.wf(),
        ensures
            r matches Ok(cs) ==> is_partition_of(cs.deep_view(), *problem),
            self is Tsp ==> (r is Ok <==> (forall|id: usize|
                problem.spec_is_customer(id) ==> problem.spec_demand_of(id) <= problem.capacity)),
            self is Tsp ==> (r matches Ok(cs) ==> clusters_within_capacity(
                cs.deep_view(),
                *problem,
            ) && cs.deep_view() == spec_greedy_clusters(*problem)),
            self matches ClusterStrategy::Knn(knn) ==> (aux matches ClusterAux::Assignments(a)
                ==> (r is Ok <==> (a@.len() == problem.customer_seq().len() && (forall|i: int|
                0 <= i < a@.len() ==> #[trigger] a@[i] < knn.count)))),
            (self is Knn && !(aux is Assignments)) ==> (r matches Err(e) && e
                == VrpError::BadClusterInput),
            self is File ==> (aux matches ClusterAux::MappingGroups(g) ==> (r is Ok
                <==> is_partition_of(spec_group_ids(g.deep_view()), *problem))),
            (self is File && !(aux is MappingGroups)) ==> (r matches Err(e) && e
                == VrpError::BadClusterInput),
    {
        match self {
            ClusterStrategy::Tsp(c) => c.cluster(problem),
            ClusterStrategy::Knn(c) => match aux {
                ClusterAux::Assignments(a) => c.cluster_assignments(problem, &a),
                _ => Err(VrpError::BadClusterInput),
            },
            ClusterStrategy::File(c) => match aux {
                ClusterAux::MappingGroups(g) => c.cluster_pairs(problem, g),
                _ => Err(VrpError::BadClusterInput),
            },
        }
    }
}

/// Whether the vector holds the identifier.
pub fn vec_contains(v: &Vec<usize>, id: usize) -> (b: bool)
    ensures
        b == v@.contains(id),
{
    let mut i: usize = 0;
    while i < v.len()
        invariant
            0 <= i <= v@.len(),
            forall|j: int| 0 <= j < i ==> (#[trigger] v@[j]) != id,
        decreases v@.len() - i,
    {
        if v[i] == id {
            return true;
        }
        i += 1;
    }
    false
}

/// One direction of `lemma_partition_same_members`.
proof fn lemma_partition_same_members_one_way(
    cs1: Seq<Seq<usize>>,
    cs2: Seq<Seq<usize>>,
    inst: Instance,
)
    requires
        cs1.len() == cs2.len(),
        forall|k: int, id: usize|
            0 <= k < cs1.len() ==> (#[trigger] cs1[k].contains(id) <==> #[trigger] cs2[k].contains(
                id,
            )),
        forall|k: int| 0 <= k < cs1.len() ==> (no_dups(#[trigger] cs1[k]) <==> no_dups(cs2[k])),
    ensures
        is_partition_of(cs1, inst) ==> is_partition_of(cs2, inst),
{
    if is_partition_of(cs1, inst) {
        assert forall|k: int| 0 <= k < cs2.len() implies no_dups(#[trigger] cs2[k]) && (forall|
            i: int,
        | 0 <= i < cs2[k].len() ==> inst.spec_is_customer(#[trigger] cs2[k][i])) by {
            assert(no_dups(cs1[k]));
            assert(no_dups(cs1[k]) <==> no_dups(cs2[k]));
            assert forall|i: int|
                0 <= i < cs2[k].len() implies inst.spec_is_customer(#[trigger] cs2[k][i]) by {
                assert(cs2[k].contains(cs2[k][i]));
                assert(cs1[k].contains(cs2[k][i]));
                let j = choose|j: int| 0 <= j < cs1[k].len() && cs1[k][j] == cs2[k][i];
            }
        }
        assert forall|a: int, b: int, id: usize|
            0 <= a < b < cs2.len() implies !(#[trigger] cs2[a].contains(id)
            && #[trigger] cs2[b].contains(id)) by {
            if cs2[a].contains(id) && cs2[b].contains(id) {
                assert(cs1[a].contains(id));
                assert(cs1[b].contains(id));
            }
        }
        assert forall|id: usize| inst.spec_is_customer(id) implies exists|k: int|
            0 <= k < cs2.len() && (#[trigger] cs2[k]).contains(id) by {
            let k = choose|k: int| 0 <= k < cs1.len() && (#[trigger] cs1[k]).contains(id);
            assert(cs2[k].contains(id));
        }
    }
}


/// The number of tokens before the next separator token.
pub open spec fn spec_group_len(toks: Seq<Seq<char>>, p: int) -> int
    decreases toks.len() - p,
{
    if p < 0 || p >= toks.len() || toks[p] == "-1"@ {
        0
    } else {
        1 + spec_group_len(toks, p + 1)
    }
}

proof fn lemma_group_len_bounds(toks: Seq<Seq<char>>, p: int)
    requires
        0 <= p <= toks.len(),
    ensures
        0 <= spec_group_len(toks, p),
        p + spec_group_len(toks, p) <= toks.len(),
        p + spec_group_len(toks, p) < toks.len() ==> toks[p + spec_group_len(toks, p)] == "-1"@,
        forall|t: int| p <= t < p + spec_group_len(toks, p) ==> (#[trigger] toks[t]) != "-1"@,
    decreases toks.len() - p,
{
    if p < toks.len() && toks[p] != "-1"@ {
        lemma_group_len_bounds(toks, p + 1);
    }
}

/// The token groups closed by a separator token, from `p` on; tokens
/// after the last separator belong to no group.
pub open spec fn spec_split_groups(toks: Seq<Seq<char>>, p: int) -> Seq<Seq<Seq<char>>>
    decreases toks.len() - p,
    via spec_split_groups_dec
{
    if p < 0 || p >= toks.len() {
        Seq::empty()
    } else {
        let gl = spec_group_len(toks, p);
        if p + gl >= toks.len() {
            Seq::empty()
        } else {
            seq![toks.subrange(p, p + gl)] + spec_split_groups(toks, p + gl + 1)
        }
    }
}

#[via_fn]
proof fn spec_split_groups_dec(toks: Seq<Seq<char>>, p: int) {
    if 0 <= p < toks.len() {
        lemma_group_len_bounds(toks, p);
    }
}

/// The group's tokens come in pairs of numbers that fit the machine.
pub open spec fn spec_group_pairs_ok(g: Seq<Seq<char>>) -> bool {
    g.len() % 2 == 0 && (forall|i: int|
        0 <= i < g.len() ==> crate::text::spec_all_digits(#[trigger] g[i])
            && crate::text::spec_digits_val(g[i]) <= usize::MAX)
}

/// Every separator-delimited run of the token stream, the unterminated
/// trailing run included, parses as id-rank pairs.
pub open spec fn spec_runs_ok(toks: Seq<Seq<char>>, p: int) -> bool
    decreases toks.len() - p,
    via spec_runs_ok_dec
{
    if p < 0 || p >= toks.len() {
        true
    } else {
        let gl = spec_group_len(toks, p);
        spec_group_pairs_ok(toks.subrange(p, p + gl)) && (p + gl < toks.len() ==> spec_runs_ok(
            toks,
            p + gl + 1,
        ))
    }
}

#[via_fn]
proof fn spec_runs_ok_dec(toks: Seq<Seq<char>>, p: int) {
    if 0 <= p < toks.len() {
        lemma_group_len_bounds(toks, p);
    }
}

/// The id-rank pairs a group's tokens denote.
pub open spec fn spec_group_pairs(g: Seq<Seq<char>>) -> Seq<(usize, usize)> {
    Seq::new(
        (g.len() / 2) as nat,
        |t: int|
            (
                (crate::text::spec_digits_val(g[2 * t]) as usize),
                (crate::text::spec_digits_val(g[2 * t + 1]) as usize),
            ),
    )
}

/// The id-rank groups a mapping text denotes.
pub open spec fn spec_mapping_groups(text: Seq<char>) -> Seq<Seq<(usize, usize)>> {
    spec_split_groups(crate::text::spec_tokens(text), 0).map_values(
        |g: Seq<Seq<char>>| spec_group_pairs(g),
    )
}

/// The mapping text is well-formed: every run of tokens between
/// separators, the trailing one included, is a list of id-rank pairs.
pub open spec fn spec_mapping_wf(text: Seq<char>) -> bool {
    spec_runs_ok(crate::text::spec_tokens(text), 0)
}

impl FileClustering {
    /// Reads a precomputed grouping from mapping text: whitespace
    /// separated id-rank pairs, groups closed by a separator token,
    /// each group stably sorted by ascending rank (equal ranks keep
    /// file order); pairs after the last separator belong to no group.
    /// Succeeds exactly when the text is well-formed and the grouping
    /// covers the customers of the instance once each.
    pub fn cluster_text(&self, problem: &Instance, text: &str) -> (r: Result<
        ClusterOutput,
        VrpError,
    >)
        requires
            problem.wf(),
        ensures
            r is Ok <==> (spec_mapping_wf(text@) && is_partition_of(
                spec_group_ids(spec_mapping_groups(text@)),
                *problem,
            )),
            r matches Ok(cs) ==> {
                &&& cs@.len() == spec_mapping_groups(text@).len()
                &&& is_partition_of(cs.deep_view(), *problem)
                &&& (forall|k: int|
                    0 <= k < cs@.len() ==> #[trigger] cs.deep_view()[k] == ids_of(
                        spec_stable_sort(spec_mapping_groups(text@)[k]),
                    ))
            },
            !spec_mapping_wf(text@) ==> (r matches Err(e) && e == VrpError::BadClusterInput),
            (spec_mapping_wf(text@) && !is_partition_of(
                spec_group_ids(spec_mapping_groups(text@)),
                *problem,
            )) ==> (r matches Err(e) && e == VrpError::Infeasible),
    {
        let toks = crate::text::tokenize(text);
        let ghost dtoks = crate::text::spec_tokens(text@);
        proof {
            assert(toks.deep_view() == dtoks);
            assert(toks@.len() == dtoks.len());
            assert(forall|k: int| 0 <= k < toks@.len() ==> (#[trigger] dtoks[k]) == toks@[k]@);
        }
        let nt = toks.len();
        let ghost gpred: spec_fn(Seq<Seq<char>>) -> Seq<(usize, usize)> = |g: Seq<Seq<char>>|
            spec_group_pairs(g);
        let mut groups: Vec<Vec<(usize, usize)>> = Vec::new();
        let mut cur: Vec<(usize, usize)> = Vec::new();
        let mut p: usize = 0;
        while p < nt
            invariant
                problem.wf(),
                dtoks == crate::text::spec_tokens(text@),
                dtoks.len() == toks@.len(),
                forall|k: int| 0 <= k < toks@.len() ==> (#[trigger] dtoks[k]) == toks@[k]@,
                nt == toks@.len(),
                gpred == (|g: Seq<Seq<char>>| spec_group_pairs(g)),
                0 <= p <= nt,
                p - 2 * cur@.len() >= 0,
                // run bookkeeping: the tokens of the open run so far
                spec_group_len(dtoks, p - 2 * cur@.len()) == 2 * cur@.len() + spec_group_len(
                    dtoks,
                    p as int,
                ),
                forall|t: int|
                    p - 2 * cur@.len() <= t < p ==> crate::text::spec_all_digits(
                        #[trigger] dtoks[t],
                    ) && crate::text::spec_digits_val(dtoks[t]) <= usize::MAX,
                cur@ == spec_group_pairs(dtoks.subrange(p - 2 * cur@.len(), p as int)),
                // completed groups
                spec_split_groups(dtoks, 0).map_values(gpred) == groups.deep_view()
                    + spec_split_groups(dtoks, p - 2 * cur@.len()).map_values(gpred),
                // well-formedness so far
                spec_runs_ok(dtoks, 0) == spec_runs_ok(dtoks, p - 2 * cur@.len()),
            decreases nt - p,
        {
            let ghost start = p - 2 * cur@.len();
            let ghost gl_p = spec_group_len(dtoks, p as int);
            proof {
                lemma_group_len_bounds(dtoks, start);
                lemma_group_len_bounds(dtoks, p as int);
            }
            let tk = &toks[p];
            if crate::text::token_is(tk, "-1") {
                proof {
                    assert(dtoks[p as int] == toks@[p as int]@);
                    assert(spec_group_len(dtoks, p as int) == 0);
                    assert(spec_group_len(dtoks, start) == 2 * cur@.len());
                    assert(start + spec_group_len(dtoks, start) == p < dtoks.len());
                    assert(spec_split_groups(dtoks, start) == seq![
                        dtoks.subrange(start, p as int),
                    ] + spec_split_groups(dtoks, p as int + 1));
                    assert(spec_group_pairs_ok(dtoks.subrange(start, p as int))) by {
                        let run = dtoks.subrange(start, p as int);
                        assert(run.len() == 2 * cur@.len());
                        assert forall|i: int|
                            0 <= i < run.len() implies crate::text::spec_all_digits(
                            #[trigger] run[i],
                        ) && crate::text::spec_digits_val(run[i]) <= usize::MAX by {
                            assert(run[i] == dtoks[start + i]);
                        }
                    }
                    assert(spec_runs_ok(dtoks, start) == spec_runs_ok(dtoks, p as int + 1));
                }
                let ghost dgroupsv = groups.deep_view();
                let done = cur;
                cur = Vec::new();
                groups.push(done);
                proof {
                    assert(groups.deep_view().len() == dgroupsv.len() + 1);
                    assert(forall|k: int|
                        0 <= k < dgroupsv.len() ==> #[trigger] groups.deep_view()[k]
                            == dgroupsv[k]);
                    assert(groups.deep_view()[dgroupsv.len() as int] == groups@[
                    dgroupsv.len() as int].deep_view());
                    assert(groups@[dgroupsv.len() as int].deep_view() =~= spec_group_pairs(
                        dtoks.subrange(start, p as int),
                    ));
                    let ahead_post = spec_split_groups(dtoks, p as int + 1);
                    assert(spec_split_groups(dtoks, start).map_values(gpred) =~= seq![
                        gpred(dtoks.subrange(start, p as int)),
                    ] + ahead_post.map_values(gpred));
                    assert(spec_split_groups(dtoks, 0).map_values(gpred) =~= groups.deep_view()
                        + ahead_post.map_values(gpred));
                    assert(cur@ =~= spec_group_pairs(dtoks.subrange(p as int + 1, p as int + 1)))
                        by {
                        assert(dtoks.subrange(p as int + 1, p as int + 1).len() == 0);
                    }
                }
                p += 1;
            } else {
                proof {
                    assert(dtoks[p as int] == toks@[p as int]@);
                    assert(spec_group_len(dtoks, p as int) == 1 + spec_group_len(
                        dtoks,
                        p as int + 1,
                    ));
                }
                let id = match crate::text::parse_usize(tk) {
                    Some(v) => v,
                    None => {
                        proof {
                            lemma_run_bad(dtoks, start, p as int, 2 * (cur@.len() as int));
                            assert(!spec_runs_ok(dtoks, 0));
                        }
                        return Err(VrpError::BadClusterInput);
                    },
                };
                if p + 1 >= nt {
                    proof {
                        assert(spec_group_len(dtoks, p as int) == 1);
                        assert(spec_group_len(dtoks, start) == 2 * cur@.len() + 1);
                        lemma_run_odd(dtoks, start);
                        assert(!spec_runs_ok(dtoks, 0));
                    }
                    return Err(VrpError::BadClusterInput);
                }
                let tk2 = &toks[p + 1];
                if crate::text::token_is(tk2, "-1") {
                    proof {
                        assert(dtoks[p as int + 1] == toks@[p as int + 1]@);
                        assert(spec_group_len(dtoks, p as int + 1) == 0);
                        assert(spec_group_len(dtoks, start) == 2 * cur@.len() + 1);
                        lemma_run_odd(dtoks, start);
                        assert(!spec_runs_ok(dtoks, 0));
                    }
                    return Err(VrpError::BadClusterInput);
                }
                let rank = match crate::text::parse_usize(tk2) {
                    Some(v) => v,
                    None => {
                        proof {
                            assert(dtoks[p as int + 1] == toks@[p as int + 1]@);
                            lemma_run_bad(dtoks, start, p as int + 1, 2 * (cur@.len() as int) + 1);
                            assert(!spec_runs_ok(dtoks, 0));
                        }
                        return Err(VrpError::BadClusterInput);
                    },
                };
                let ghost curv = cur@;
                cur.push((id, rank));
                proof {
                    assert(dtoks[p as int + 1] == toks@[p as int + 1]@);
                    assert(spec_group_len(dtoks, p as int + 1) == 1 + spec_group_len(
                        dtoks,
                        p as int + 2,
                    ));
                    assert(spec_group_len(dtoks, start) == 2 * cur@.len() + spec_group_len(
                        dtoks,
                        p as int + 2,
                    ));
                    let ns = dtoks.subrange(start, p as int + 2);
                    let os = dtoks.subrange(start, p as int);
                    assert(cur@ =~= spec_group_pairs(ns)) by {
                        assert(ns.len() == 2 * curv.len() + 2);
                        assert(spec_group_pairs(ns).len() == curv.len() + 1);
                        assert forall|t: int| 0 <= t < curv.len() + 1 implies (
                        #[trigger] spec_group_pairs(ns)[t]) == cur@[t] by {
                            if t < curv.len() {
                                assert(ns[2 * t] == os[2 * t]);
                                assert(ns[2 * t + 1] == os[2 * t + 1]);
                                assert(spec_group_pairs(os)[t] == curv[t]);
                            } else {
                                assert(ns[2 * t] == dtoks[p as int]);
                                assert(ns[2 * t + 1] == dtoks[p as int + 1]);
                            }
                        }
                    }
                }
                p += 2;
            }
        }
        proof {
            let start = p - 2 * cur@.len();
            lemma_group_len_bounds(dtoks, start);
            assert(spec_group_len(dtoks, p as int) == 0) by {
                if (p as int) < dtoks.len() {
                }
            }
            assert(start + spec_group_len(dtoks, start) == p >= dtoks.len());
            assert(spec_split_groups(dtoks, start) =~= Seq::<Seq<Seq<char>>>::empty()) by {
                if start < dtoks.len() {
                } else {
                }
            }
            assert(groups.deep_view() =~= spec_split_groups(dtoks, 0).map_values(gpred));
            assert(groups.deep_view() =~= spec_mapping_groups(text@));
            assert(spec_runs_ok(dtoks, start)) by {
                if start < dtoks.len() {
                    let run = dtoks.subrange(start, p as int);
                    assert(spec_group_pairs_ok(run)) by {
                        assert(run.len() == 2 * cur@.len());
                        assert forall|i: int|
                            0 <= i < run.len() implies crate::text::spec_all_digits(
                            #[trigger] run[i],
                        ) && crate::text::spec_digits_val(run[i]) <= usize::MAX by {
                            assert(run[i] == dtoks[start + i]);
                        }
                    }
                }
            }
            assert(spec_mapping_wf(text@));
        }
        let r = self.cluster_pairs(problem, groups);
        proof {
            assert(spec_group_ids(spec_mapping_groups(text@)) =~= spec_group_ids(
                spec_mapping_groups(text@),
            ));
        }
        match r {
            Ok(cs) => Ok(cs),
            Err(e) => Err(e),
        }
    }
}

/// A run holding a token that is not a number cannot parse as pairs,
/// so the stream is not well-formed.
proof fn lemma_run_bad(toks: Seq<Seq<char>>, start: int, bad: int, off: int)
    requires
        0 <= start <= bad < toks.len(),
        bad == start + off,
        spec_group_len(toks, start) >= off + 1,
        !(crate::text::spec_all_digits(toks[bad]) && crate::text::spec_digits_val(toks[bad])
            <= usize::MAX),
    ensures
        !spec_runs_ok(toks, start),
        !spec_runs_ok(toks, 0) || spec_runs_ok(toks, 0) != spec_runs_ok(toks, start)
            ==> !spec_runs_ok(toks, start),
{
    lemma_group_len_bounds(toks, start);
    let gl = spec_group_len(toks, start);
    if spec_runs_ok(toks, start) {
        let run = toks.subrange(start, start + gl);
        assert(spec_group_pairs_ok(run));
        assert(run[off] == toks[bad]);
        assert(false);
    }
}

/// A run of odd length cannot parse as pairs, so the stream is not
/// well-formed.
proof fn lemma_run_odd(toks: Seq<Seq<char>>, start: int)
    requires
        0 <= start <= toks.len(),
        spec_group_len(toks, start) % 2 == 1,
    ensures
        !spec_runs_ok(toks, start),
{
    lemma_group_len_bounds(toks, start);
    let gl = spec_group_len(toks, start);
    if spec_runs_ok(toks, start) {
        if start < toks.len() {
            let run = toks.subrange(start, start + gl);
            assert(spec_group_pairs_ok(run));
            assert(run.len() == gl);
            assert(false);
        } else {
            assert(gl == 0);
        }
    }
}


} // verus!
