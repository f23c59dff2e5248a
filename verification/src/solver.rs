//! The decompose-solve-reassemble orchestrator: builds one
//! self-contained sub-instance per cluster, names the files they are
//! persisted under, and reassembles and scores the returned tours.
use vstd::prelude::*;

use crate::clustering::{spec_cluster_demand, ClusterOutput, ClusterStrategy};
use crate::instance::{Instance, Node, TspKind, MAX_NODES};
use crate::num::{dec_rep, lemma_dec_rep_injective, push_u64};
use crate::reindex::clone_string;
use crate::solvers::SolvingOutput;
use crate::tsp_util::{calculate_solution_score, spec_score, tours_ok};
use crate::VrpError;

verus! {

/// Whether a node survives into the sub-instance of a cluster: it is
/// one of the cluster's nodes or a depot.
pub open spec fn spec_keeps(problem: Instance, cluster: Seq<usize>, id: usize) -> bool {
    cluster.contains(id) || problem.depots@.contains(id)
}

/// The nodes of the sub-instance of a cluster, in the parent's node
/// order.
pub open spec fn spec_sub_nodes(problem: Instance, cluster: Seq<usize>) -> Seq<Node> {
    problem.nodes@.filter(|n: Node| spec_keeps(problem, cluster, n.id))
}

/// Whether `id` names a surviving node: a kept identifier that the
/// parent actually has a node for.
pub open spec fn spec_survives(problem: Instance, cluster: Seq<usize>, id: usize) -> bool {
    spec_keeps(problem, cluster, id) && problem.spec_has_node(id)
}

/// The fixed edges of the sub-instance of a cluster: those whose both
/// endpoints are surviving nodes.
pub open spec fn spec_sub_edges(problem: Instance, cluster: Seq<usize>) -> Seq<(usize, usize)> {
    problem.fixed_edges@.filter(
        |e: (usize, usize)| spec_survives(problem, cluster, e.0) && spec_survives(
            problem,
            cluster,
            e.1,
        ),
    )
}

/// The name of the sub-instance with the given ordinal.
pub open spec fn spec_sub_name(parent: Seq<char>, ordinal: nat) -> Seq<char> {
    parent + seq!['_'] + dec_rep(ordinal)
}

/// Filtering nodes keeps only nodes of the original sequence and keeps
/// distinct identifiers distinct.
proof fn lemma_node_filter_facts(s: Seq<Node>, pred: spec_fn(Node) -> bool)
    requires
        forall|i: int, j: int| 0 <= i < j < s.len() ==> (#[trigger] s[i]).id != (#[trigger] s[j]).id,
    ensures
        forall|x: Node| #[trigger] s.filter(pred).contains(x) ==> s.contains(x),
        forall|i: int, j: int|
            0 <= i < j < s.filter(pred).len() ==> (#[trigger] s.filter(pred)[i]).id != (
            #[trigger] s.filter(pred)[j]).id,
    decreases s.len(),
{
    reveal(Seq::filter);
    if s.len() == 0 {
        assert(s.filter(pred) =~= Seq::<Node>::empty());
    } else {
        let t = s.drop_last();
        let last = s.last();
        assert(forall|i: int, j: int|
            0 <= i < j < t.len() ==> (#[trigger] t[i]).id != (#[trigger] t[j]).id);
        lemma_node_filter_facts(t, pred);
        let ft = t.filter(pred);
        let fs = s.filter(pred);
        assert forall|x: Node| #[trigger] fs.contains(x) implies s.contains(x) by {
            if pred(last) {
                assert(fs == ft.push(last));
                let k = choose|k: int| 0 <= k < fs.len() && fs[k] == x;
                if k < ft.len() {
                    assert(ft.contains(x));
                    let j = choose|j: int| 0 <= j < t.len() && t[j] == x;
                    assert(s[j] == x);
                } else {
                    assert(s[s.len() - 1] == x);
                }
            } else {
                assert(fs == ft);
                let j = choose|j: int| 0 <= j < t.len() && t[j] == x;
                assert(s[j] == x);
            }
        }
        if pred(last) {
            assert(fs == ft.push(last));
            assert forall|i: int, j: int|
                0 <= i < j < fs.len() implies (#[trigger] fs[i]).id != (#[trigger] fs[j]).id by {
                if j == fs.len() - 1 {
                    assert(fs[j] == last);
                    assert(ft.contains(fs[i])) by {
                        assert(ft[i] == fs[i]);
                    }
                    assert(t.contains(fs[i]));
                    let ti = choose|ti: int| 0 <= ti < t.len() && t[ti] == fs[i];
                    assert(s[ti] == fs[i]);
                    assert(s[s.len() - 1] == last);
                } else {
                    assert(fs[i] == ft[i] && fs[j] == ft[j]);
                }
            }
        } else {
            assert(fs == ft);
        }
    }
}

/// Distinct ordinals give distinct sub-instance names.
pub proof fn lemma_sub_names_distinct(parent: Seq<char>, a: nat, b: nat)
    requires
        a != b,
    ensures
        spec_sub_name(parent, a) != spec_sub_name(parent, b),
{
    let na = spec_sub_name(parent, a);
    let nb = spec_sub_name(parent, b);
    if na == nb {
        assert(na.len() == nb.len());
        assert(dec_rep(a).len() == dec_rep(b).len());
        assert forall|i: int| 0 <= i < dec_rep(a).len() implies dec_rep(a)[i] == dec_rep(b)[i] by {
            assert(na[parent.len() + 1 + i] == dec_rep(a)[i]);
            assert(nb[parent.len() + 1 + i] == dec_rep(b)[i]);
        }
        assert(dec_rep(a) =~= dec_rep(b));
        lemma_dec_rep_injective(a, b);
    }
}

/// The orchestrator: a clustering strategy and the working directory
/// sub-instances are persisted under. The solving of each persisted
/// sub-instance happens outside the library; its tours come back
/// through `crate::reindex::remap_tours` and `aggregate_paths`.
pub struct VrpSolver {
    pub cluster_strat: ClusterStrategy,
    pub build_dir: Option<String>,
}

impl VrpSolver {
    /// One self-contained sub-instance per cluster: the cluster's nodes
    /// plus all depots, demands and fixed edges filtered to the
    /// survivors, capacity and metadata copied, and a name and comment
    /// derived from the parent's and the cluster's ordinal.
    pub fn cluster_tsps(&self, problem: &Instance, clusters: &ClusterOutput) -> (r: Vec<Instance>)
        requires
            problem.wf(),
            clusters@.len() <= MAX_NODES,
        ensures
            r@.len() == clusters@.len(),
            forall|k: int|
                0 <= k < clusters@.len() ==> {
                    let sub = #[trigger] r@[k];
                    &&& sub.wf()
                    &&& sub.nodes@ == spec_sub_nodes(*problem, clusters.deep_view()[k])
                    &&& sub.depots@ == problem.depots@
                    &&& sub.fixed_edges@ == spec_sub_edges(*problem, clusters.deep_view()[k])
                    &&& sub.capacity == problem.capacity
                    &&& sub.kind == TspKind::Cvrp
                    &&& sub.dim == sub.nodes@.len()
                    &&& sub.name@ == spec_sub_name(problem.name@, k as nat)
                    &&& sub.comment@ == problem.comment@ + " - Cluster Nr."@ + dec_rep(k as nat)
                    &&& sub.weight_kind@ == problem.weight_kind@
                    &&& sub.weight_format@ == problem.weight_format@
                    &&& sub.edge_format@ == problem.edge_format@
                    &&& sub.coord_kind@ == problem.coord_kind@
                    &&& sub.disp_kind@ == problem.disp_kind@
                    &&& (forall|e: int|
                        0 <= e < sub.fixed_edges@.len() ==> sub.spec_has_node(
                            (#[trigger] sub.fixed_edges@[e]).0,
                        ) && sub.spec_has_node(sub.fixed_edges@[e].1))
                },
            forall|k: int, l: int|
                0 <= k < l < clusters@.len() ==> (#[trigger] r@[k]).name@ != (
                #[trigger] r@[l]).name@,
    {
        let mut tsps: Vec<Instance> = Vec::new();
        let mut k: usize = 0;
        while k < clusters.len()
            invariant
                problem.wf(),
                clusters@.len() <= MAX_NODES,
                0 <= k <= clusters@.len(),
                tsps@.len() == k,
                forall|j: int|
                    0 <= j < k ==> {
                        let sub = #[trigger] tsps@[j];
                        &&& sub.wf()
                        &&& sub.nodes@ == spec_sub_nodes(*problem, clusters.deep_view()[j])
                        &&& sub.depots@ == problem.depots@
                        &&& sub.fixed_edges@ == spec_sub_edges(*problem, clusters.deep_view()[j])
                        &&& sub.capacity == problem.capacity
                        &&& sub.kind == TspKind::Cvrp
                        &&& sub.dim == sub.nodes@.len()
                        &&& sub.name@ == spec_sub_name(problem.name@, j as nat)
                        &&& sub.comment@ == problem.comment@ + " - Cluster Nr."@ + dec_rep(
                            j as nat,
                        )
                        &&& sub.weight_kind@ == problem.weight_kind@
                        &&& sub.weight_format@ == problem.weight_format@
                        &&& sub.edge_format@ == problem.edge_format@
                        &&& sub.coord_kind@ == problem.coord_kind@
                        &&& sub.disp_kind@ == problem.disp_kind@
                        &&& (forall|e: int|
                            0 <= e < sub.fixed_edges@.len() ==> sub.spec_has_node(
                                (#[trigger] sub.fixed_edges@[e]).0,
                            ) && sub.spec_has_node(sub.fixed_edges@[e].1))
                    },
            decreases clusters@.len() - k,
        {
            let cluster = &clusters[k];
            let ghost dcl = clusters.deep_view()[k as int];
            proof {
                assert(dcl == cluster@);
            }
            let sub = self.build_sub_instance(problem, cluster, k);
            tsps.push(sub);
            k += 1;
        }
        proof {
            assert forall|k2: int, l: int|
                0 <= k2 < l < clusters@.len() implies (#[trigger] tsps@[k2]).name@ != (
            #[trigger] tsps@[l]).name@ by {
                lemma_sub_names_distinct(problem.name@, k2 as nat, l as nat);
            }
        }
        tsps
    }

    /// Builds the sub-instance of one cluster.
    fn build_sub_instance(&self, problem: &Instance, cluster: &Vec<usize>, ordinal: usize) -> (sub:
        Instance)
        requires
            problem.wf(),
        ensures
            sub.wf(),
            sub.nodes@ == spec_sub_nodes(*problem, cluster@),
            sub.depots@ == problem.depots@,
            sub.fixed_edges@ == spec_sub_edges(*problem, cluster@),
            sub.capacity == problem.capacity,
            sub.kind == TspKind::Cvrp,
            sub.dim == sub.nodes@.len(),
            sub.name@ == spec_sub_name(problem.name@, ordinal as nat),
            sub.comment@ == problem.comment@ + " - Cluster Nr."@ + dec_rep(ordinal as nat),
            sub.weight_kind@ == problem.weight_kind@,
            sub.weight_format@ == problem.weight_format@,
            sub.edge_format@ == problem.edge_format@,
            sub.coord_kind@ == problem.coord_kind@,
            sub.disp_kind@ == problem.disp_kind@,
            forall|e: int|
                0 <= e < sub.fixed_edges@.len() ==> sub.spec_has_node(
                    (#[trigger] sub.fixed_edges@[e]).0,
                ) && sub.spec_has_node(sub.fixed_edges@[e].1),
    {
        let ghost npred: spec_fn(Node) -> bool = |n: Node| spec_keeps(*problem, cluster@, n.id);
        let mut nodes: Vec<Node> = Vec::new();
        let mut i: usize = 0;
        proof {
            assert(problem.nodes@.subrange(0, 0).filter(npred) =~= Seq::<Node>::empty());
        }
        while i < problem.nodes.len()
            invariant
                problem.wf(),
                0 <= i <= problem.nodes@.len(),
                npred == (|n: Node| spec_keeps(*problem, cluster@, n.id)),
                nodes@ == problem.nodes@.subrange(0, i as int).filter(npred),
            decreases problem.nodes@.len() - i,
        {
            let n = problem.nodes[i];
            let ghost pre = problem.nodes@.subrange(0, i as int);
            let ghost post = problem.nodes@.subrange(0, i as int + 1);
            proof {
                assert(post =~= pre.push(n));
                reveal(Seq::filter);
                assert(post.drop_last() =~= pre);
            }
            if vec_contains_id(cluster, n.id) || problem.contains_depot(n.id) {
                nodes.push(n);
            }
            i += 1;
        }
        proof {
            assert(problem.nodes@.subrange(0, problem.nodes@.len() as int) =~= problem.nodes@);
        }
        let ghost epred: spec_fn((usize, usize)) -> bool = |e: (usize, usize)|
            spec_survives(*problem, cluster@, e.0) && spec_survives(*problem, cluster@, e.1);
        let mut edges: Vec<(usize, usize)> = Vec::new();
        let mut i: usize = 0;
        proof {
            assert(problem.fixed_edges@.subrange(0, 0).filter(epred) =~= Seq::<
                (usize, usize),
            >::empty());
        }
        while i < problem.fixed_edges.len()
            invariant
                problem.wf(),
                0 <= i <= problem.fixed_edges@.len(),
                epred == (|e: (usize, usize)|
                    spec_survives(*problem, cluster@, e.0) && spec_survives(*problem, cluster@, e.1)),
                edges@ == problem.fixed_edges@.subrange(0, i as int).filter(epred),
            decreases problem.fixed_edges@.len() - i,
        {
            let e = problem.fixed_edges[i];
            let ghost pre = problem.fixed_edges@.subrange(0, i as int);
            let ghost post = problem.fixed_edges@.subrange(0, i as int + 1);
            proof {
                assert(post =~= pre.push(e));
                reveal(Seq::filter);
                assert(post.drop_last() =~= pre);
            }
            let keep0 = (vec_contains_id(cluster, e.0) || problem.contains_depot(e.0))
                && problem.find_node(e.0).is_some();
            let keep1 = (vec_contains_id(cluster, e.1) || problem.contains_depot(e.1))
                && problem.find_node(e.1).is_some();
            if keep0 && keep1 {
                edges.push(e);
            }
            i += 1;
        }
        proof {
            assert(problem.fixed_edges@.subrange(0, problem.fixed_edges@.len() as int)
                =~= problem.fixed_edges@);
        }
        let mut name = clone_string(&problem.name);
        name.append("_");
        push_u64(&mut name, ordinal as u64);
        let mut comment = clone_string(&problem.comment);
        comment.append(" - Cluster Nr.");
        push_u64(&mut comment, ordinal as u64);
        proof {
            reveal_strlit("_");
            assert(name@ =~= spec_sub_name(problem.name@, ordinal as nat));
            assert(comment@ =~= problem.comment@ + " - Cluster Nr."@ + dec_rep(ordinal as nat));
        }
        let depots = clone_ids(&problem.depots);
        let sub = Instance {
            name,
            comment,
            kind: TspKind::Cvrp,
            dim: nodes.len(),
            capacity: problem.capacity,
            weight_kind: clone_string(&problem.weight_kind),
            weight_format: clone_string(&problem.weight_format),
            edge_format: clone_string(&problem.edge_format),
            coord_kind: clone_string(&problem.coord_kind),
            disp_kind: clone_string(&problem.disp_kind),
            nodes,
            depots,
            fixed_edges: edges,
        };
        proof {
            self.lemma_sub_wf(*problem, cluster@, sub);
        }
        sub
    }

    /// The sub-instance built from well-formed parts is well-formed and
    /// internally consistent.
    proof fn lemma_sub_wf(&self, problem: Instance, cluster: Seq<usize>, sub: Instance)
        requires
            problem.wf(),
            sub.nodes@ == spec_sub_nodes(problem, cluster),
            sub.depots@ == problem.depots@,
            sub.fixed_edges@ == spec_sub_edges(problem, cluster),
            sub.dim == sub.nodes@.len(),
        ensures
            sub.wf(),
            forall|e: int|
                0 <= e < sub.fixed_edges@.len() ==> sub.spec_has_node(
                    (#[trigger] sub.fixed_edges@[e]).0,
                ) && sub.spec_has_node(sub.fixed_edges@[e].1),
    {
        let npred: spec_fn(Node) -> bool = |n: Node| spec_keeps(problem, cluster, n.id);
        let fs = sub.nodes@;
        lemma_node_filter_facts(problem.nodes@, npred);
        problem.nodes@.lemma_filter_len(npred);
        assert forall|i: int|
            0 <= i < fs.len() implies (#[trigger] fs[i]).id >= 1 && -crate::instance::COORD_MAX
            <= fs[i].x <= crate::instance::COORD_MAX && -crate::instance::COORD_MAX <= fs[i].y
            <= crate::instance::COORD_MAX by {
            assert(fs.contains(fs[i]));
            assert(problem.nodes@.contains(fs[i]));
            let j = choose|j: int| 0 <= j < problem.nodes@.len() && problem.nodes@[j] == fs[i];
        }
        assert forall|id: usize| spec_keeps(problem, cluster, id) && problem.spec_has_node(
            id,
        ) implies sub.spec_has_node(id) by {
            let j = problem.spec_node_idx(id);
            assert(problem.nodes@[j].id == id);
            assert(npred(problem.nodes@[j]));
            problem.nodes@.lemma_filter_contains(npred, j);
            let t = choose|t: int| 0 <= t < fs.len() && fs[t] == problem.nodes@[j];
        }
        assert forall|d: int|
            0 <= d < sub.depots@.len() implies sub.spec_has_node(#[trigger] sub.depots@[d])
            && sub.spec_demand_of(sub.depots@[d]) == 0 by {
            let id = sub.depots@[d];
            assert(problem.spec_has_node(id) && problem.spec_demand_of(id) == 0);
            assert(spec_keeps(problem, cluster, id));
            assert(sub.spec_has_node(id));
            let t = sub.spec_node_idx(id);
            assert(fs[t].id == id);
            assert(fs.contains(fs[t]));
            assert(problem.nodes@.contains(fs[t]));
            let j = choose|j: int| 0 <= j < problem.nodes@.len() && problem.nodes@[j] == fs[t];
            let pj = problem.spec_node_idx(id);
            assert(problem.nodes@[pj].id == id);
            assert(j == pj);
        }
        assert forall|e: int|
            0 <= e < sub.fixed_edges@.len() implies sub.spec_has_node(
            (#[trigger] sub.fixed_edges@[e]).0,
        ) && sub.spec_has_node(sub.fixed_edges@[e].1) by {
            let epred: spec_fn((usize, usize)) -> bool = |e: (usize, usize)|
                spec_survives(problem, cluster, e.0) && spec_survives(problem, cluster, e.1);
            let es = sub.fixed_edges@;
            assert(es == problem.fixed_edges@.filter(epred));
            problem.fixed_edges@.lemma_filter_pred(epred, e);
            let ed = es[e];
            assert(spec_survives(problem, cluster, ed.0));
            assert(spec_survives(problem, cluster, ed.1));
            assert(sub.spec_has_node(ed.0));
            assert(sub.spec_has_node(ed.1));
        }
    }

    /// The achieved total length of a solution against the parent
    /// instance.
    pub fn calculate_solution_score(&self, problem: &Instance, paths: &SolvingOutput) -> (r:
        Option<u128>)
        requires
            problem.wf(),
        ensures
            r is Some <==> (tours_ok(*problem, paths@) && spec_score(*problem, paths@)
                <= u128::MAX),
            r matches Some(s) ==> s as int == spec_score(*problem, paths@),
    {
        calculate_solution_score(problem, paths.output())
    }

    /// The working directory sub-instances are persisted under.
    pub fn build_dir(&self) -> (r: String)
        ensures
            self.build_dir matches Some(d) ==> r@ == d@,
            self.build_dir is None ==> r@ == "./.vrp"@,
    {
        if let Some(dir) = &self.build_dir {
            clone_string(dir)
        } else {
            let r = String::from_str("./.vrp");
            r
        }
    }

    /// The path a sub-instance is persisted under: the working
    /// directory, a separator, the sub-instance's name and the instance
    /// suffix. Distinct sub-instance names give distinct paths.
    pub fn sub_vrp_path(&self, dir: &str, name: &str) -> (r: String)
        ensures
            r@ == dir@ + "/"@ + name@ + ".vrp"@,
    {
        let mut r = String::from_str(dir);
        r.append("/");
        r.append(name);
        r.append(".vrp");
        r
    }
}

/// Equal-length names give equal-length paths, so sub-instances with
/// distinct names never collide on a file path.
pub proof fn lemma_sub_paths_distinct(dir: Seq<char>, n1: Seq<char>, n2: Seq<char>)
    requires
        n1 != n2,
    ensures
        dir + "/"@ + n1 + ".vrp"@ != dir + "/"@ + n2 + ".vrp"@,
{
    let p1 = dir + "/"@ + n1 + ".vrp"@;
    let p2 = dir + "/"@ + n2 + ".vrp"@;
    if p1 == p2 {
        assert(p1.len() == p2.len());
        assert(n1.len() == n2.len());
        assert forall|i: int| 0 <= i < n1.len() implies n1[i] == n2[i] by {
            assert(p1[dir.len() + "/"@.len() + i] == n1[i]);
            assert(p2[dir.len() + "/"@.len() + i] == n2[i]);
        }
        assert(n1 =~= n2);
    }
}

/// Concatenates all clusters' tour lists, in cluster order, into one
/// aggregated solution; zero sub-instances give the empty solution.
pub fn aggregate_paths(parts: Vec<Vec<Vec<usize>>>) -> (r: SolvingOutput)
    ensures
        r@ == parts.deep_view().flatten(),
        parts@.len() == 0 ==> r@.len() == 0,
{
    let ghost dparts = parts.deep_view();
    let mut rest = parts;
    let mut out: Vec<Vec<usize>> = Vec::new();
    proof {
        assert(out.deep_view() + dparts.flatten() =~= dparts.flatten());
    }
    while rest.len() > 0
        invariant
            out.deep_view() + rest.deep_view().flatten() == dparts.flatten(),
        decreases rest@.len(),
    {
        let ghost drest = rest.deep_view();
        let mut chunk = rest.remove(0);
        proof {
            assert forall|j: int| 0 <= j < rest@.len() implies #[trigger] rest.deep_view()[j]
                == drest[j + 1] by {
                assert(rest.deep_view()[j] == rest@[j].deep_view());
            }
            assert(rest.deep_view() =~= drest.drop_first());
            assert(chunk.deep_view() == drest[0]);
            assert(drest.flatten() == drest[0] + drest.drop_first().flatten());
        }
        proof {
            assert(out.deep_view() + chunk.deep_view() + rest.deep_view().flatten()
                =~= dparts.flatten());
        }
        while chunk.len() > 0
            invariant
                out.deep_view() + chunk.deep_view() + rest.deep_view().flatten() == dparts.flatten(),
            decreases chunk@.len(),
        {
            let ghost dck = chunk.deep_view();
            let ghost dout = out.deep_view();
            let tour = chunk.remove(0);
            let ghost dtour = tour.deep_view();
            out.push(tour);
            proof {
                assert forall|j: int| 0 <= j < chunk@.len() implies #[trigger] chunk.deep_view()[j]
                    == dck[j + 1] by {
                    assert(chunk.deep_view()[j] == chunk@[j].deep_view());
                }
                assert(chunk.deep_view() =~= dck.drop_first());
                assert(out.deep_view().len() == dout.len() + 1);
                assert forall|j: int| 0 <= j < dout.len() implies #[trigger] out.deep_view()[j]
                    == dout[j] by {
                    assert(out.deep_view()[j] == out@[j].deep_view());
                }
                assert(out.deep_view()[dout.len() as int] == dtour) by {
                    assert(out.deep_view()[dout.len() as int] == out@[
                    dout.len() as int].deep_view());
                }
                assert(dtour == dck[0]);
                assert(out.deep_view() =~= dout.push(dck[0]));
                assert(out.deep_view() + chunk.deep_view() =~= dout + dck);
                assert(out.deep_view() + chunk.deep_view() + rest.deep_view().flatten()
                    =~= dparts.flatten());
            }
        }
        proof {
            assert(chunk.deep_view() =~= Seq::<Seq<usize>>::empty());
            assert(out.deep_view() + rest.deep_view().flatten() =~= dparts.flatten());
        }
    }
    proof {
        assert(rest.deep_view() =~= Seq::<Seq<Seq<usize>>>::empty());
        assert(rest.deep_view().flatten() =~= Seq::<Seq<usize>>::empty());
        assert(out.deep_view() =~= dparts.flatten());
    }
    SolvingOutput::new(out)
}

/// Whether the vector holds the identifier.
fn vec_contains_id(v: &Vec<usize>, id: usize) -> (b: bool)
    ensures
        b == v@.contains(id),
{
    crate::clustering::vec_contains(v, id)
}

/// Rejects an instance whose kind is not the capacitated routing kind.
pub fn validate_kind(problem: &Instance) -> (r: Result<(), VrpError>)
    ensures
        r is Ok <==> problem.kind == TspKind::Cvrp,
        r matches Err(e) ==> e == VrpError::WrongKind,
{
    if problem.kind == TspKind::Cvrp {
        Ok(())
    } else {
        Err(VrpError::WrongKind)
    }
}

/// Filtering edges keeps only edges of the original sequence.
proof fn lemma_edge_filter_subset(s: Seq<(usize, usize)>, pred: spec_fn((usize, usize)) -> bool)
    ensures
        forall|x: (usize, usize)| #[trigger] s.filter(pred).contains(x) ==> s.contains(x),
    decreases s.len(),
{
    reveal(Seq::filter);
    if s.len() == 0 {
        assert(s.filter(pred) =~= Seq::<(usize, usize)>::empty());
    } else {
        let t = s.drop_last();
        let last = s.last();
        lemma_edge_filter_subset(t, pred);
        let ft = t.filter(pred);
        let fs = s.filter(pred);
        assert forall|x: (usize, usize)| #[trigger] fs.contains(x) implies s.contains(x) by {
            if pred(last) {
                assert(fs == ft.push(last));
                let k = choose|k: int| 0 <= k < fs.len() && fs[k] == x;
                if k < ft.len() {
                    assert(ft.contains(x));
                    let j = choose|j: int| 0 <= j < t.len() && t[j] == x;
                    assert(s[j] == x);
                } else {
                    assert(s[s.len() - 1] == x);
                }
            } else {
                assert(fs == ft);
                let j = choose|j: int| 0 <= j < t.len() && t[j] == x;
                assert(s[j] == x);
            }
        }
    }
}

/// Copies an identifier list.
fn clone_ids(v: &Vec<usize>) -> (r: Vec<usize>)
    ensures
        r@ == v@,
{
    let mut r: Vec<usize> = Vec::new();
    let mut i: usize = 0;
    while i < v.len()
        invariant
            0 <= i <= v@.len(),
            r@ == v@.subrange(0, i as int),
        decreases v@.len() - i,
    {
        r.push(v[i]);
        proof {
            assert(r@ =~= v@.subrange(0, i as int + 1));
        }
        i += 1;
    }
    proof {
        assert(v@.subrange(0, v@.len() as int) =~= v@);
    }
    r
}

} // verus!
