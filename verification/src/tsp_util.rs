//! Distances between instance nodes and closed-tour scoring.
//!
//! Positions are integer points, and an edge's length is the floor of the
//! real Euclidean distance between its endpoints, so every length and
//! every score is an exact integer.
use vstd::prelude::*;

use crate::instance::{Instance, COORD_MAX};
use crate::num::{is_sqrt_floor, isqrt, lemma_sqrt_floor_exists, sqrt_floor};

verus! {

/// No edge between well-formed nodes is longer than this.
pub const MAX_EDGE_LEN: u64 = 28284271;

/// The squared Euclidean distance between two planar points.
pub open spec fn spec_sq_dist(ax: int, ay: int, bx: int, by: int) -> int {
    (ax - bx) * (ax - bx) + (ay - by) * (ay - by)
}

/// The distance between two nodes of an instance: the floor of the real
/// Euclidean distance between their positions.
pub open spec fn spec_distance(inst: Instance, a: usize, b: usize) -> int {
    sqrt_floor(
        spec_sq_dist(
            inst.spec_node(a).x as int,
            inst.spec_node(a).y as int,
            inst.spec_node(b).x as int,
            inst.spec_node(b).y as int,
        ),
    )
}

/// Distances between nodes of a well-formed instance are nonnegative and
/// bounded by `MAX_EDGE_LEN`.
pub proof fn lemma_distance_bounds(inst: Instance, a: usize, b: usize)
    requires
        inst.wf(),
        inst.spec_has_node(a),
        inst.spec_has_node(b),
    ensures
        0 <= spec_distance(inst, a, b) <= MAX_EDGE_LEN,
{
    let ax = inst.spec_node(a).x as int;
    let ay = inst.spec_node(a).y as int;
    let bx = inst.spec_node(b).x as int;
    let by = inst.spec_node(b).y as int;
    let n = spec_sq_dist(ax, ay, bx, by);
    assert(0 <= n <= 800000000000000) by (nonlinear_arith)
        requires
            -COORD_MAX <= ax <= COORD_MAX,
            -COORD_MAX <= ay <= COORD_MAX,
            -COORD_MAX <= bx <= COORD_MAX,
            -COORD_MAX <= by <= COORD_MAX,
            n == (ax - bx) * (ax - bx) + (ay - by) * (ay - by),
            COORD_MAX == 10000000,
    ;
    lemma_sqrt_floor_exists(n);
    let r = sqrt_floor(n);
    assert(r <= MAX_EDGE_LEN) by (nonlinear_arith)
        requires
            0 <= r,
            r * r <= n <= 800000000000000,
            MAX_EDGE_LEN == 28284271u64,
    ;
}

/// A trait for types that measure a distance between two of their
/// nodes: the measure is defined on the domain the type declares, and
/// there it returns the declared value.
pub trait Distancing<T> {
    /// Whether a distance between `a` and `b` is defined.
    spec fn spec_distance_defined(&self, a: usize, b: usize) -> bool;

    /// The distance between `a` and `b`, where defined.
    spec fn spec_distance_value(&self, a: usize, b: usize) -> T;

    fn distance(&self, a: usize, b: usize) -> (r: Option<T>)
        ensures
            r is Some <==> self.spec_distance_defined(a, b),
            r matches Some(v) ==> v == self.spec_distance_value(a, b),
    ;
}

impl Distancing<u64> for Instance {
    /// A distance is defined between any two nodes of a well-formed
    /// instance.
    open spec fn spec_distance_defined(&self, a: usize, b: usize) -> bool {
        self.wf() && self.spec_has_node(a) && self.spec_has_node(b)
    }

    /// The floor of the Euclidean distance between the two nodes.
    open spec fn spec_distance_value(&self, a: usize, b: usize) -> u64 {
        spec_distance(*self, a, b) as u64
    }

    fn distance(&self, a: usize, b: usize) -> (r: Option<u64>) {
        if !self.wf_check() {
            return None;
        }
        let r = self.node_distance(a, b);
        proof {
            if r is Some {
                assert(r->Some_0 as int == spec_distance(*self, a, b));
            }
        }
        r
    }
}

/// Distances between nodes of a well-formed instance are symmetric.
pub proof fn lemma_distance_symmetric(inst: Instance, a: usize, b: usize)
    ensures
        spec_distance(inst, a, b) == spec_distance(inst, b, a),
{
    let ax = inst.spec_node(a).x as int;
    let ay = inst.spec_node(a).y as int;
    let bx = inst.spec_node(b).x as int;
    let by = inst.spec_node(b).y as int;
    assert(spec_sq_dist(ax, ay, bx, by) == spec_sq_dist(bx, by, ax, ay)) by (nonlinear_arith);
}

/// The distance from a node to itself is zero.
pub proof fn lemma_distance_self_zero(inst: Instance, a: usize)
    ensures
        spec_distance(inst, a, a) == 0,
{
    let ax = inst.spec_node(a).x as int;
    let ay = inst.spec_node(a).y as int;
    assert(spec_sq_dist(ax, ay, ax, ay) == 0) by (nonlinear_arith);
    assert(is_sqrt_floor(0, 0)) by (nonlinear_arith);
    crate::num::lemma_sqrt_floor_unique(0, 0);
}

impl Instance {
    /// Decides well-formedness; `wf` is its specification.
    pub fn wf_check(&self) -> (b: bool)
        ensures
            b == self.wf(),
    {
        if self.dim != self.nodes.len() || self.nodes.len() > crate::instance::MAX_NODES {
            return false;
        }
        let mut i: usize = 0;
        while i < self.nodes.len()
            invariant
                0 <= i <= self.nodes@.len(),
                forall|k: int, j: int|
                    0 <= k < j < i ==> (#[trigger] self.nodes@[k]).id != (
                    #[trigger] self.nodes@[j]).id,
                forall|k: int|
                    0 <= k < i ==> (#[trigger] self.nodes@[k]).id >= 1 && -COORD_MAX
                        <= self.nodes@[k].x <= COORD_MAX && -COORD_MAX <= self.nodes@[k].y
                        <= COORD_MAX,
            decreases self.nodes@.len() - i,
        {
            let n = self.nodes[i];
            if n.id < 1 || n.x < -COORD_MAX || n.x > COORD_MAX || n.y < -COORD_MAX || n.y
                > COORD_MAX {
                return false;
            }
            let mut j: usize = 0;
            while j < i
                invariant
                    0 <= j <= i < self.nodes@.len(),
                    n == self.nodes@[i as int],
                    forall|k: int| 0 <= k < j ==> (#[trigger] self.nodes@[k]).id != n.id,
                decreases i - j,
            {
                if self.nodes[j].id == n.id {
                    return false;
                }
                j += 1;
            }
            i += 1;
        }
        let mut i: usize = 0;
        while i < self.depots.len()
            invariant
                0 <= i <= self.depots@.len(),
                forall|k: int, j: int|
                    0 <= k < j < i ==> (#[trigger] self.depots@[k]) != (#[trigger] self.depots@[j]),
                forall|k: int|
                    0 <= k < i ==> self.spec_has_node(#[trigger] self.depots@[k])
                        && self.spec_demand_of(self.depots@[k]) == 0,
                forall|k: int, j: int|
                    0 <= k < j < self.nodes@.len() ==> (#[trigger] self.nodes@[k]).id != (
                    #[trigger] self.nodes@[j]).id,
            decreases self.depots@.len() - i,
        {
            let d = self.depots[i];
            match self.find_node(d) {
                None => {
                    return false;
                },
                Some(ni) => {
                    proof {
                        let k = self.spec_node_idx(d);
                        assert(self.nodes@[k].id == d);
                        assert(k == ni);
                    }
                    if self.nodes[ni].demand != 0 {
                        return false;
                    }
                },
            }
            let mut j: usize = 0;
            while j < i
                invariant
                    0 <= j <= i < self.depots@.len(),
                    d == self.depots@[i as int],
                    forall|k: int| 0 <= k < j ==> (#[trigger] self.depots@[k]) != d,
                decreases i - j,
            {
                if self.depots[j] == d {
                    return false;
                }
                j += 1;
            }
            i += 1;
        }
        true
    }

    /// The floor of the Euclidean distance between nodes `a` and `b`.
    pub fn node_distance(&self, a: usize, b: usize) -> (r: Option<u64>)
        requires
            self.wf(),
        ensures
            r is Some <==> (self.spec_has_node(a) && self.spec_has_node(b)),
            r matches Some(d) ==> d as int == spec_distance(*self, a, b),
    {
        let ia = match self.find_node(a) {
            Some(i) => i,
            None => {
                return None;
            },
        };
        let ib = match self.find_node(b) {
            Some(i) => i,
            None => {
                return None;
            },
        };
        proof {
            let ka = self.spec_node_idx(a);
            assert(self.nodes@[ka].id == a);
            assert(ka == ia);
            let kb = self.spec_node_idx(b);
            assert(self.nodes@[kb].id == b);
            assert(kb == ib);
        }
        let na = self.nodes[ia];
        let nb = self.nodes[ib];
        let dx: i64 = na.x - nb.x;
        let dy: i64 = na.y - nb.y;
        let sq: i64 = {
            assert(dx * dx + dy * dy <= 800000000000000 && 0 <= dx * dx && 0 <= dy * dy)
                by (nonlinear_arith)
                requires
                    -2 * COORD_MAX <= dx <= 2 * COORD_MAX,
                    -2 * COORD_MAX <= dy <= 2 * COORD_MAX,
                    COORD_MAX == 10000000,
            ;
            dx * dx + dy * dy
        };
        let d = isqrt(sq as u64);
        Some(d)
    }
}

/// All tours name only nodes of the instance, and none is empty.
pub open spec fn tours_ok(inst: Instance, paths: Seq<Seq<usize>>) -> bool {
    forall|i: int|
        0 <= i < paths.len() ==> (#[trigger] paths[i]).len() >= 1 && (forall|j: int|
            0 <= j < paths[i].len() ==> inst.spec_has_node(#[trigger] paths[i][j]))
}

/// The length of the first `k` edges along a tour.
pub open spec fn spec_path_len(inst: Instance, tour: Seq<usize>, k: int) -> int
    decreases k,
{
    if k <= 0 {
        0
    } else {
        spec_path_len(inst, tour, k - 1) + spec_distance(inst, tour[k - 1], tour[k])
    }
}

/// The length of a closed tour: consecutive edges plus the closing edge
/// from the last node back to the first.
pub open spec fn spec_tour_len(inst: Instance, tour: Seq<usize>) -> int {
    if tour.len() == 0 {
        0
    } else {
        spec_path_len(inst, tour, tour.len() - 1) + spec_distance(
            inst,
            tour[tour.len() - 1],
            tour[0],
        )
    }
}

/// The total length of the first `k` tours.
pub open spec fn spec_score_upto(inst: Instance, paths: Seq<Seq<usize>>, k: int) -> int
    decreases k,
{
    if k <= 0 {
        0
    } else {
        spec_score_upto(inst, paths, k - 1) + spec_tour_len(inst, paths[k - 1])
    }
}

/// The total length of a list of closed tours.
pub open spec fn spec_score(inst: Instance, paths: Seq<Seq<usize>>) -> int {
    spec_score_upto(inst, paths, paths.len() as int)
}

proof fn lemma_path_len_bounds(inst: Instance, tour: Seq<usize>, k: int)
    requires
        inst.wf(),
        0 <= k < tour.len(),
        forall|j: int| 0 <= j < tour.len() ==> inst.spec_has_node(#[trigger] tour[j]),
    ensures
        0 <= spec_path_len(inst, tour, k) <= k * MAX_EDGE_LEN,
    decreases k,
{
    if k > 0 {
        lemma_path_len_bounds(inst, tour, k - 1);
        lemma_distance_bounds(inst, tour[k - 1], tour[k]);
        assert((k - 1) * MAX_EDGE_LEN + MAX_EDGE_LEN == k * MAX_EDGE_LEN) by (nonlinear_arith);
    }
}

/// A closed tour over nodes of a well-formed instance has a nonnegative
/// length, bounded by one maximal edge per tour entry.
pub proof fn lemma_tour_len_bounds(inst: Instance, tour: Seq<usize>)
    requires
        inst.wf(),
        tour.len() >= 1,
        forall|j: int| 0 <= j < tour.len() ==> inst.spec_has_node(#[trigger] tour[j]),
    ensures
        0 <= spec_tour_len(inst, tour) <= tour.len() * MAX_EDGE_LEN,
{
    lemma_path_len_bounds(inst, tour, tour.len() - 1);
    lemma_distance_bounds(inst, tour[tour.len() - 1], tour[0]);
    assert((tour.len() - 1) * MAX_EDGE_LEN + MAX_EDGE_LEN == tour.len() * MAX_EDGE_LEN)
        by (nonlinear_arith);
}

/// The achieved length of a solution: the sum over all tours of the
/// consecutive pairwise distances plus each tour's closing edge.
///
/// Returns `None` when a tour is empty, names an unknown node, or the
/// total would not fit the result type.
pub fn calculate_solution_score(problem: &Instance, paths: &Vec<Vec<usize>>) -> (r: Option<u128>)
    requires
        problem.wf(),
    ensures
        r is Some <==> (tours_ok(*problem, paths.deep_view()) && spec_score(
            *problem,
            paths.deep_view(),
        ) <= u128::MAX),
        r matches Some(s) ==> s as int == spec_score(*problem, paths.deep_view()),
{
    let ghost dpaths = paths.deep_view();
    let mut total: u128 = 0;
    let mut i: usize = 0;
    proof {
        assert(dpaths.len() == paths@.len());
    }
    while i < paths.len()
        invariant
            problem.wf(),
            0 <= i <= paths@.len(),
            dpaths == paths.deep_view(),
            dpaths.len() == paths@.len(),
            forall|k: int| 0 <= k < paths@.len() ==> (#[trigger] dpaths[k]) == paths@[k]@,
            forall|k: int|
                0 <= k < i ==> (#[trigger] dpaths[k]).len() >= 1 && (forall|j: int|
                    0 <= j < dpaths[k].len() ==> problem.spec_has_node(#[trigger] dpaths[k][j])),
            total as int == spec_score_upto(*problem, dpaths, i as int),
        decreases paths@.len() - i,
    {
        let tour = &paths[i];
        let ghost dtour = dpaths[i as int];
        let tlen: usize = tour.len();
        if tlen == 0 {
            proof {
                assert(!((#[trigger] dpaths[i as int]).len() >= 1));
            }
            return None;
        }
        let mut length: u128 = 0;
        let mut j: usize = 0;
        while j + 1 < tlen
            invariant
                problem.wf(),
                0 <= j < tlen,
                tour@ == dtour,
                tour@.len() == tlen,
                dpaths == paths.deep_view(),
                dpaths.len() == paths@.len(),
                0 <= i < paths@.len(),
                dtour == dpaths[i as int],
                forall|k: int| 0 <= k < j ==> problem.spec_has_node(#[trigger] dtour[k]),
                length as int == spec_path_len(*problem, dtour, j as int),
                length as int <= j * (MAX_EDGE_LEN as int),
            decreases tlen - j,
        {
            let d = match problem.node_distance(tour[j], tour[j + 1]) {
                Some(d) => d,
                None => {
                    proof {
                        assert(!(problem.spec_has_node(dtour[j as int]) && problem.spec_has_node(
                            dtour[j as int + 1],
                        )));
                    }
                    return None;
                },
            };
            proof {
                lemma_distance_bounds(*problem, dtour[j as int], dtour[j as int + 1]);
                assert(j * (MAX_EDGE_LEN as int) + MAX_EDGE_LEN == (j + 1) * (
                MAX_EDGE_LEN as int)) by (nonlinear_arith);
                assert((j + 1) * (MAX_EDGE_LEN as int) < u128::MAX) by (nonlinear_arith)
                    requires
                        0 <= j + 1 <= usize::MAX,
                        MAX_EDGE_LEN == 28284271u64,
                ;
            }
            length = length + d as u128;
            j += 1;
        }
        let closing = match problem.node_distance(tour[tlen - 1], tour[0]) {
            Some(d) => d,
            None => {
                proof {
                    assert(!(problem.spec_has_node(dtour[dtour.len() - 1])
                        && problem.spec_has_node(dtour[0])));
                }
                return None;
            },
        };
        proof {
            lemma_distance_bounds(*problem, dtour[dtour.len() - 1], dtour[0]);
            assert(j as int == dtour.len() - 1);
            assert(length as int + closing as int == spec_tour_len(*problem, dtour));
            assert((dtour.len() - 1) * (MAX_EDGE_LEN as int) + MAX_EDGE_LEN < u128::MAX)
                by (nonlinear_arith)
                requires
                    dtour.len() <= usize::MAX,
                    MAX_EDGE_LEN == 28284271u64,
            ;
            assert(length as int <= (dtour.len() - 1) * (MAX_EDGE_LEN as int));
        }
        let tour_total: u128 = length + closing as u128;
        if total > u128::MAX - tour_total {
            proof {
                lemma_score_upto_next(*problem, dpaths, i as int);
                if tours_ok(*problem, dpaths) {
                    lemma_score_upto_mono(*problem, dpaths, i as int + 1, dpaths.len() as int);
                }
            }
            return None;
        }
        total = total + tour_total;
        proof {
            lemma_score_upto_next(*problem, dpaths, i as int);
            assert forall|jj: int| 0 <= jj < dtour.len() implies problem.spec_has_node(
                #[trigger] dtour[jj],
            ) by {
                if jj == dtour.len() - 1 {
                } else {
                }
            }
        }
        i += 1;
    }
    proof {
        assert(i as int == dpaths.len());
    }
    Some(total)
}

proof fn lemma_score_upto_next(inst: Instance, paths: Seq<Seq<usize>>, k: int)
    requires
        0 <= k < paths.len(),
    ensures
        spec_score_upto(inst, paths, k + 1) == spec_score_upto(inst, paths, k) + spec_tour_len(
            inst,
            paths[k],
        ),
{
}

/// Adding further well-formed tours never lowers the total.
proof fn lemma_score_upto_mono(inst: Instance, paths: Seq<Seq<usize>>, a: int, b: int)
    requires
        inst.wf(),
        0 <= a <= b <= paths.len(),
        forall|i: int|
            0 <= i < paths.len() ==> (#[trigger] paths[i]).len() >= 1 && (forall|j: int|
                0 <= j < paths[i].len() ==> inst.spec_has_node(#[trigger] paths[i][j])),
    ensures
        spec_score_upto(inst, paths, a) <= spec_score_upto(inst, paths, b),
    decreases b - a,
{
    if a < b {
        lemma_score_upto_mono(inst, paths, a, b - 1);
        lemma_tour_len_bounds(inst, paths[b - 1]);
    }
}

} // verus!
