//! Dense re-indexing of sub-instances: every node receives a fresh local
//! identifier in `1..=n`, with a bijection kept in a bimap so tours can
//! be translated back to the original identifiers.
use vstd::prelude::*;

use crate::instance::Instance;
use crate::instance::Node;
use crate::VrpError;

verus! {

#[verifier::external_type_specification]
#[verifier::external_body]
#[verifier::reject_recursive_types(L)]
#[verifier::reject_recursive_types(R)]
#[verifier::reject_recursive_types(LS)]
#[verifier::reject_recursive_types(RS)]
pub struct ExBiHashMap<L, R, LS, RS>(bimap::BiHashMap<L, R, LS, RS>);

/// The bimap type the pipeline keeps its node-id bijections in.
pub type NodeBiMap = bimap::BiMap<usize, usize>;

/// What a bimap holds: its pairs, as the map from left to right values.
pub uninterp spec fn bimap_pairs(m: NodeBiMap) -> Map<usize, usize>;

/// Relies on bimap::BiHashMap::new: a fresh bimap holds no pairs.
#[verifier::external_body]
fn bimap_new() -> (r: NodeBiMap)
    ensures
        forall|l: usize| !bimap_pairs(r).dom().contains(l),
{
    bimap::BiMap::new()
}

/// Relies on bimap::BiHashMap::insert_no_overwrite: when neither the
/// left nor the right value is present the pair is inserted, and
/// otherwise the pair is handed back and the map is unchanged.
#[verifier::external_body]
fn bimap_insert_no_overwrite(m: &mut NodeBiMap, l: usize, r: usize) -> (res: Result<
    (),
    (usize, usize),
>)
    ensures
        res is Ok <==> (!bimap_pairs(*old(m)).dom().contains(l) && !(exists|l2: usize|
            bimap_pairs(*old(m)).contains_pair(l2, r))),
        res is Ok ==> bimap_pairs(*final(m)) == bimap_pairs(*old(m)).insert(l, r),
        res is Err ==> bimap_pairs(*final(m)) == bimap_pairs(*old(m)),
{
    match m.insert_no_overwrite(l, r) {
        Ok(()) => Ok(()),
        Err(p) => Err(p),
    }
}

/// Relies on bimap::BiHashMap::get_by_left: returns the right value
/// paired with the given left value, if the left value is present.
#[verifier::external_body]
fn bimap_get_by_left(m: &NodeBiMap, l: usize) -> (r: Option<usize>)
    ensures
        r is Some <==> bimap_pairs(*m).dom().contains(l),
        r matches Some(v) ==> bimap_pairs(*m).contains_pair(l, v),
{
    m.get_by_left(&l).copied()
}

/// Relies on bimap::BiHashMap::get_by_right: returns the left value
/// paired with the given right value, if the right value is present.
#[verifier::external_body]
fn bimap_get_by_right(m: &NodeBiMap, r: usize) -> (res: Option<usize>)
    ensures
        res is Some <==> (exists|l: usize| bimap_pairs(*m).contains_pair(l, r)),
        res matches Some(l) ==> bimap_pairs(*m).contains_pair(l, r),
{
    m.get_by_right(&r).copied()
}

/// The map pairs every node's original identifier with its position in
/// node order shifted by one, and holds nothing else.
pub open spec fn reindex_map_ok(vrp: Instance, m: Map<usize, usize>) -> bool {
    &&& (forall|i: int|
        0 <= i < vrp.nodes@.len() ==> m.contains_pair((#[trigger] vrp.nodes@[i]).id, (i + 1) as usize))
    &&& (forall|l: usize| #[trigger] m.dom().contains(l) ==> vrp.spec_has_node(l))
}

/// The bijection property of re-indexing: the map is total over the
/// instance's node identifiers, injective into the dense range `1..=n`,
/// and inverting it returns exactly the original identifier for every
/// image, each appearing exactly once.
pub proof fn lemma_reindex_bijection(vrp: Instance, m: Map<usize, usize>)
    requires
        vrp.wf(),
        reindex_map_ok(vrp, m),
    ensures
        forall|i: int|
            0 <= i < vrp.nodes@.len() ==> m.dom().contains((#[trigger] vrp.nodes@[i]).id) && m[
                vrp.nodes@[i].id] == i + 1,
        forall|i: int, j: int|
            0 <= i < j < vrp.nodes@.len() ==> m[(#[trigger] vrp.nodes@[i]).id] != m[(
            #[trigger] vrp.nodes@[j]).id],
        forall|v: usize|
            1 <= v <= vrp.nodes@.len() ==> m.contains_pair(
                (#[trigger] vrp.nodes@[v - 1]).id,
                v,
            ),
        forall|l: usize, v: usize|
            #[trigger] m.contains_pair(l, v) ==> 1 <= v <= vrp.nodes@.len() && vrp.nodes@[v as int
                - 1].id == l,
{
    assert forall|l: usize, v: usize| #[trigger] m.contains_pair(l, v) implies 1 <= v
        <= vrp.nodes@.len() && vrp.nodes@[v as int - 1].id == l by {
        assert(vrp.spec_has_node(l));
        let i = choose|i: int| 0 <= i < vrp.nodes@.len() && vrp.nodes@[i].id == l;
        assert(m.contains_pair(vrp.nodes@[i].id, (i + 1) as usize));
        assert(v == i + 1);
    }
}

/// Builds the bimap from original node identifiers to `1..=n` in node
/// order.
fn build_reindex_map(vrp: &Instance) -> (m: NodeBiMap)
    requires
        vrp.wf(),
    ensures
        reindex_map_ok(*vrp, bimap_pairs(m)),
{
    let mut m = bimap_new();
    let mut i: usize = 0;
    while i < vrp.nodes.len()
        invariant
            vrp.wf(),
            0 <= i <= vrp.nodes@.len(),
            forall|k: int|
                0 <= k < i ==> bimap_pairs(m).contains_pair(
                    (#[trigger] vrp.nodes@[k]).id,
                    (k + 1) as usize,
                ),
            forall|l: usize|
                #[trigger] bimap_pairs(m).dom().contains(l) ==> exists|k: int|
                    0 <= k < i && vrp.nodes@[k].id == l,
            forall|l2: usize, v: usize|
                #[trigger] bimap_pairs(m).contains_pair(l2, v) ==> 1 <= v <= i,
        decreases vrp.nodes@.len() - i,
    {
        let id = vrp.nodes[i].id;
        let ghost pairs_before = bimap_pairs(m);
        proof {
            if pairs_before.dom().contains(id) {
                let k = choose|k: int| 0 <= k < i && vrp.nodes@[k].id == id;
                assert(false);
            }
            if exists|l2: usize| #[trigger] pairs_before.contains_pair(l2, (i + 1) as usize) {
                let l2 = choose|l2: usize| #[trigger] pairs_before.contains_pair(l2, (i + 1) as usize);
                assert(false);
            }
        }
        let res = bimap_insert_no_overwrite(&mut m, id, i + 1);
        proof {
            assert(res is Ok);
            assert(bimap_pairs(m) == pairs_before.insert(id, (i + 1) as usize));
            assert forall|l: usize| #[trigger] bimap_pairs(m).dom().contains(l) implies exists|
                k: int,
            | 0 <= k < i + 1 && vrp.nodes@[k].id == l by {
                if l == id {
                    assert(vrp.nodes@[i as int].id == l);
                } else {
                    assert(pairs_before.dom().contains(l));
                }
            }
        }
        i += 1;
    }
    m
}

/// Rebuilds an instance under dense node identifiers `1..=n`, assigned
/// in node order, and returns it with the bijection from original to
/// local identifiers. Positions and demands move with their nodes, the
/// depots are translated, and everything else is copied unchanged.
pub fn reindex_vrp(vrp: &Instance) -> (r: (Instance, NodeBiMap))
    requires
        vrp.wf(),
    ensures
        reindex_map_ok(*vrp, bimap_pairs(r.1)),
        r.0.wf(),
        r.0.nodes@.len() == vrp.nodes@.len(),
        forall|i: int|
            0 <= i < vrp.nodes@.len() ==> (#[trigger] r.0.nodes@[i]) == (Node {
                id: (i + 1) as usize,
                x: vrp.nodes@[i].x,
                y: vrp.nodes@[i].y,
                demand: vrp.nodes@[i].demand,
            }),
        r.0.depots@.len() == vrp.depots@.len(),
        forall|i: int|
            0 <= i < vrp.depots@.len() ==> bimap_pairs(r.1).contains_pair(
                #[trigger] vrp.depots@[i],
                r.0.depots@[i],
            ),
        r.0.name@ == vrp.name@,
        r.0.comment@ == vrp.comment@,
        r.0.kind == vrp.kind,
        r.0.dim == vrp.dim,
        r.0.capacity == vrp.capacity,
        r.0.weight_kind@ == vrp.weight_kind@,
        r.0.weight_format@ == vrp.weight_format@,
        r.0.edge_format@ == vrp.edge_format@,
        r.0.coord_kind@ == vrp.coord_kind@,
        r.0.disp_kind@ == vrp.disp_kind@,
        r.0.fixed_edges@ == vrp.fixed_edges@,
{
    let m = build_reindex_map(vrp);
    let mut nodes: Vec<Node> = Vec::new();
    let mut i: usize = 0;
    while i < vrp.nodes.len()
        invariant
            vrp.wf(),
            0 <= i <= vrp.nodes@.len(),
            nodes@.len() == i,
            forall|k: int|
                0 <= k < i ==> (#[trigger] nodes@[k]) == (Node {
                    id: (k + 1) as usize,
                    x: vrp.nodes@[k].x,
                    y: vrp.nodes@[k].y,
                    demand: vrp.nodes@[k].demand,
                }),
        decreases vrp.nodes@.len() - i,
    {
        let n = vrp.nodes[i];
        nodes.push(Node { id: i + 1, x: n.x, y: n.y, demand: n.demand });
        i += 1;
    }
    let mut depots: Vec<usize> = Vec::new();
    let mut i: usize = 0;
    while i < vrp.depots.len()
        invariant
            vrp.wf(),
            reindex_map_ok(*vrp, bimap_pairs(m)),
            0 <= i <= vrp.depots@.len(),
            depots@.len() == i,
            forall|k: int|
                0 <= k < i ==> bimap_pairs(m).contains_pair(
                    #[trigger] vrp.depots@[k],
                    depots@[k],
                ),
        decreases vrp.depots@.len() - i,
    {
        let d = vrp.depots[i];
        let nd = match bimap_get_by_left(&m, d) {
            Some(v) => v,
            None => {
                proof {
                    assert(vrp.spec_has_node(d));
                    let k = choose|k: int| 0 <= k < vrp.nodes@.len() && vrp.nodes@[k].id == d;
                    assert(bimap_pairs(m).contains_pair(vrp.nodes@[k].id, (k + 1) as usize));
                }
                unreached()
            },
        };
        depots.push(nd);
        i += 1;
    }
    let out = Instance {
        name: clone_string(&vrp.name),
        comment: clone_string(&vrp.comment),
        kind: vrp.kind,
        dim: vrp.dim,
        capacity: vrp.capacity,
        weight_kind: clone_string(&vrp.weight_kind),
        weight_format: clone_string(&vrp.weight_format),
        edge_format: clone_string(&vrp.edge_format),
        coord_kind: clone_string(&vrp.coord_kind),
        disp_kind: clone_string(&vrp.disp_kind),
        nodes,
        depots,
        fixed_edges: clone_edges(&vrp.fixed_edges),
    };
    proof {
        lemma_reindex_bijection(*vrp, bimap_pairs(m));
        assert forall|a: int, b: int|
            0 <= a < b < out.depots@.len() implies (#[trigger] out.depots@[a]) != (
        #[trigger] out.depots@[b]) by {
            assert(bimap_pairs(m).contains_pair(vrp.depots@[a], out.depots@[a]));
            assert(bimap_pairs(m).contains_pair(vrp.depots@[b], out.depots@[b]));
            if out.depots@[a] == out.depots@[b] {
                assert(vrp.nodes@[out.depots@[a] as int - 1].id == vrp.depots@[a]);
                assert(vrp.nodes@[out.depots@[b] as int - 1].id == vrp.depots@[b]);
            }
        }
        assert forall|k: int|
            0 <= k < out.depots@.len() implies out.spec_has_node(#[trigger] out.depots@[k])
            && out.spec_demand_of(out.depots@[k]) == 0 by {
            assert(bimap_pairs(m).contains_pair(vrp.depots@[k], out.depots@[k]));
            let v = out.depots@[k];
            assert(1 <= v <= vrp.nodes@.len());
            assert(vrp.nodes@[v as int - 1].id == vrp.depots@[k]);
            assert(out.nodes@[v as int - 1].id == v);
            assert(out.spec_has_node(v));
            let idx = out.spec_node_idx(v);
            assert(out.nodes@[idx].id == v);
            assert(idx == v as int - 1) by {
                if idx != v as int - 1 {
                    assert(out.nodes@[idx].id == idx + 1);
                }
            }
            assert(vrp.spec_is_depot(vrp.depots@[k]));
            assert(vrp.spec_has_node(vrp.depots@[k]));
            let oidx = vrp.spec_node_idx(vrp.depots@[k]);
            assert(vrp.nodes@[oidx].id == vrp.depots@[k]);
            assert(oidx == v as int - 1) by {
                if oidx != v as int - 1 {
                    assert(vrp.nodes@[oidx].id == vrp.nodes@[v as int - 1].id);
                }
            }
            assert(vrp.spec_demand_of(vrp.depots@[k]) == 0);
            assert(out.nodes@[v as int - 1].demand == vrp.nodes@[v as int - 1].demand);
        }
    }
    (out, m)
}

/// Every identifier in every tour has a preimage under the map.
pub open spec fn all_have_preimage(m: Map<usize, usize>, tours: Seq<Seq<usize>>) -> bool {
    forall|i: int, j: int|
        0 <= i < tours.len() && 0 <= j < tours[i].len() ==> has_preimage(m, tours[i][j])
}

/// Some left value maps to `v`.
pub open spec fn has_preimage(m: Map<usize, usize>, v: usize) -> bool {
    exists|l: usize| m.contains_pair(l, v)
}

/// Translates every node identifier in every tour back through the
/// inverse of the re-indexing bijection. Fails exactly when some tour
/// entry has no preimage in the map.
pub fn remap_tours(map: &NodeBiMap, tours: &Vec<Vec<usize>>) -> (r: Result<
    Vec<Vec<usize>>,
    VrpError,
>)
    ensures
        r is Ok <==> all_have_preimage(bimap_pairs(*map), tours.deep_view()),
        r matches Ok(ts) ==> {
            &&& ts@.len() == tours@.len()
            &&& (forall|i: int|
                0 <= i < tours@.len() ==> (#[trigger] ts@[i])@.len() == tours@[i]@.len())
            &&& (forall|i: int, j: int|
                0 <= i < tours@.len() && 0 <= j < (#[trigger] ts@[i])@.len()
                    ==> bimap_pairs(*map).contains_pair(ts@[i]@[j], #[trigger] tours@[i]@[j]))
        },
        r matches Err(e) ==> e == VrpError::ExternalTool,
{
    let ghost dtours = tours.deep_view();
    let mut out: Vec<Vec<usize>> = Vec::new();
    let mut i: usize = 0;
    proof {
        assert(dtours.len() == tours@.len());
    }
    while i < tours.len()
        invariant
            0 <= i <= tours@.len(),
            dtours == tours.deep_view(),
            dtours.len() == tours@.len(),
            forall|k: int| 0 <= k < tours@.len() ==> (#[trigger] dtours[k]) == tours@[k]@,
            out@.len() == i,
            forall|k: int|
                0 <= k < i ==> (#[trigger] out@[k])@.len() == tours@[k]@.len(),
            forall|k: int, j: int|
                0 <= k < i && 0 <= j < (#[trigger] out@[k])@.len() ==> bimap_pairs(
                    *map,
                ).contains_pair(out@[k]@[j], #[trigger] tours@[k]@[j]),
        decreases tours@.len() - i,
    {
        let tour = &tours[i];
        let mut mapped: Vec<usize> = Vec::new();
        let mut j: usize = 0;
        while j < tour.len()
            invariant
                0 <= j <= tour@.len(),
                tour@ == tours@[i as int]@,
                0 <= i < tours@.len(),
                dtours == tours.deep_view(),
                dtours.len() == tours@.len(),
                forall|k: int| 0 <= k < tours@.len() ==> (#[trigger] dtours[k]) == tours@[k]@,
                mapped@.len() == j,
                forall|k: int|
                    0 <= k < j ==> bimap_pairs(*map).contains_pair(
                        #[trigger] mapped@[k],
                        tour@[k],
                    ),
            decreases tour@.len() - j,
        {
            match bimap_get_by_right(map, tour[j]) {
                Some(l) => {
                    mapped.push(l);
                },
                None => {
                    proof {
                        assert(dtours[i as int] == tours@[i as int]@);
                        assert(!(exists|l: usize|
                            bimap_pairs(*map).contains_pair(l, dtours[i as int][j as int])));
                    }
                    return Err(VrpError::ExternalTool);
                },
            }
            j += 1;
        }
        out.push(mapped);
        i += 1;
    }
    proof {
        assert forall|i: int, j: int|
            0 <= i < dtours.len() && 0 <= j < dtours[i].len() implies has_preimage(
            bimap_pairs(*map),
            dtours[i][j],
        ) by {
            assert(dtours[i] == tours@[i]@);
            let w = out@[i]@[j];
            assert(bimap_pairs(*map).contains_pair(w, tours@[i]@[j]));
        }
        assert(all_have_preimage(bimap_pairs(*map), dtours));
    }
    Ok(out)
}

/// Copies a string.
pub(crate) fn clone_string(s: &String) -> (r: String)
    ensures
        r@ == s@,
{
    s.clone()
}

/// Copies an edge list.
fn clone_edges(es: &Vec<(usize, usize)>) -> (r: Vec<(usize, usize)>)
    ensures
        r@ == es@,
{
    let mut r: Vec<(usize, usize)> = Vec::new();
    let mut i: usize = 0;
    while i < es.len()
        invariant
            0 <= i <= es@.len(),
            r@ == es@.subrange(0, i as int),
        decreases es@.len() - i,
    {
        let e = es[i];
        r.push(e);
        proof {
            assert(r@ =~= es@.subrange(0, i as int + 1));
        }
        i += 1;
    }
    proof {
        assert(es@.subrange(0, es@.len() as int) =~= es@);
    }
    r
}

} // verus!
