//! The routing-instance model: nodes with integer positions and demands,
//! depots, a vehicle capacity, and the metadata that the instance text
//! format carries along.
use vstd::prelude::*;

verus! {

/// Largest node count an instance may hold.
pub const MAX_NODES: usize = 1000000;

/// Largest magnitude of a node coordinate.
pub const COORD_MAX: i64 = 10000000;

/// The problem variants the instance format declares.
#[derive(Debug, Clone, Copy, PartialEq, Eq, Structural)]
pub enum TspKind {
    Tsp,
    Atsp,
    Sop,
    Hcp,
    Cvrp,
    Tour,
    Undefined,
}

/// One node: its identifier, its planar position, and its demand.
#[derive(Debug, Clone, Copy, PartialEq, Eq, Structural)]
pub struct Node {
    pub id: usize,
    pub x: i64,
    pub y: i64,
    pub demand: u64,
}

/// An immutable routing problem. `nodes` carries positions and demands in
/// a fixed order; `depots` names the nodes that serve as depots; the
/// remaining string fields are format metadata copied through unchanged.
#[derive(Debug)]
pub struct Instance {
    pub name: String,
    pub comment: String,
    pub kind: TspKind,
    pub dim: usize,
    pub capacity: u64,
    pub weight_kind: String,
    pub weight_format: String,
    pub edge_format: String,
    pub coord_kind: String,
    pub disp_kind: String,
    pub nodes: Vec<Node>,
    pub depots: Vec<usize>,
    pub fixed_edges: Vec<(usize, usize)>,
}

impl Instance {
    /// Index of the node carrying `id`, where one exists.
    pub open spec fn spec_node_idx(self, id: usize) -> int {
        choose|i: int| 0 <= i < self.nodes@.len() && self.nodes@[i].id == id
    }

    pub open spec fn spec_has_node(self, id: usize) -> bool {
        exists|i: int| 0 <= i < self.nodes@.len() && self.nodes@[i].id == id
    }

    pub open spec fn spec_node(self, id: usize) -> Node {
        self.nodes@[self.spec_node_idx(id)]
    }

    pub open spec fn spec_demand_of(self, id: usize) -> u64 {
        self.spec_node(id).demand
    }

    pub open spec fn spec_is_depot(self, id: usize) -> bool {
        self.depots@.contains(id)
    }

    /// A customer is a node that is not a depot.
    pub open spec fn spec_is_customer(self, id: usize) -> bool {
        self.spec_has_node(id) && !self.spec_is_depot(id)
    }

    /// The customer identifiers, in node order.
    pub open spec fn customer_seq(self) -> Seq<usize> {
        self.nodes@.map_values(|n: Node| n.id).filter(|id: usize| !self.depots@.contains(id))
    }

    /// Well-formedness: the dimension matches the node count, identifiers
    /// are positive and distinct, coordinates are bounded, and depots are
    /// distinct nodes without demand.
    pub open spec fn wf(self) -> bool {
        &&& self.dim == self.nodes@.len()
        &&& self.nodes@.len() <= MAX_NODES
        &&& (forall|i: int, j: int|
            0 <= i < j < self.nodes@.len() ==> (#[trigger] self.nodes@[i]).id != (
            #[trigger] self.nodes@[j]).id)
        &&& (forall|i: int|
            0 <= i < self.nodes@.len() ==> (#[trigger] self.nodes@[i]).id >= 1)
        &&& (forall|i: int|
            0 <= i < self.nodes@.len() ==> -COORD_MAX <= (#[trigger] self.nodes@[i]).x
                <= COORD_MAX && -COORD_MAX <= self.nodes@[i].y <= COORD_MAX)
        &&& (forall|i: int, j: int|
            0 <= i < j < self.depots@.len() ==> (#[trigger] self.depots@[i]) != (
            #[trigger] self.depots@[j]))
        &&& (forall|i: int|
            0 <= i < self.depots@.len() ==> self.spec_has_node(#[trigger] self.depots@[i])
                && self.spec_demand_of(self.depots@[i]) == 0)
    }

    /// Looks a node up by its identifier.
    pub fn find_node(&self, id: usize) -> (r: Option<usize>)
        ensures
            r is Some <==> self.spec_has_node(id),
            r matches Some(i) ==> 0 <= i < self.nodes@.len() && self.nodes@[i as int].id == id,
    {
        let mut i: usize = 0;
        while i < self.nodes.len()
            invariant
                0 <= i <= self.nodes@.len(),
                forall|j: int| 0 <= j < i ==> (#[trigger] self.nodes@[j]).id != id,
            decreases self.nodes@.len() - i,
        {
            if self.nodes[i].id == id {
                return Some(i);
            }
            i += 1;
        }
        None
    }

    /// Whether `id` names one of the depots.
    pub fn contains_depot(&self, id: usize) -> (b: bool)
        ensures
            b == self.spec_is_depot(id),
    {
        let mut i: usize = 0;
        while i < self.depots.len()
            invariant
                0 <= i <= self.depots@.len(),
                forall|j: int| 0 <= j < i ==> (#[trigger] self.depots@[j]) != id,
            decreases self.depots@.len() - i,
        {
            if self.depots[i] == id {
                return true;
            }
            i += 1;
        }
        return false;
    }

    /// The demand of the node carrying `id`, where one exists.
    pub fn demand_of(&self, id: usize) -> (r: Option<u64>)
        ensures
            r is Some <==> self.spec_has_node(id),
            (self.wf() && r is Some) ==> r->Some_0 == self.spec_demand_of(id),
    {
        match self.find_node(id) {
            Some(i) => {
                proof {
                    if self.wf() {
                        let k = self.spec_node_idx(id);
                        assert(self.nodes@[k].id == id);
                        assert(k == i);
                    }
                }
                Some(self.nodes[i].demand)
            },
            None => None,
        }
    }

    /// The customer identifiers, in node order: there are at most as many
    /// as nodes, none repeats, each is a customer, and every customer of
    /// the instance is among them.
    pub proof fn lemma_customer_seq_facts(self)
        requires
            self.wf(),
        ensures
            self.customer_seq().len() <= self.nodes@.len(),
            forall|i: int, j: int|
                0 <= i < j < self.customer_seq().len() ==> self.customer_seq()[i]
                    != self.customer_seq()[j],
            forall|i: int|
                0 <= i < self.customer_seq().len() ==> self.spec_is_customer(
                    #[trigger] self.customer_seq()[i],
                ),
            forall|id: usize| self.spec_is_customer(id) ==> self.customer_seq().contains(id),
    {
        let ids = self.nodes@.map_values(|n: Node| n.id);
        let pred = |id: usize| !self.depots@.contains(id);
        let cs = self.customer_seq();
        ids.lemma_filter_len(pred);
        assert forall|i: int, j: int| 0 <= i < j < ids.len() implies ids[i] != ids[j] by {
            assert(ids[i] == self.nodes@[i].id);
            assert(ids[j] == self.nodes@[j].id);
        }
        lemma_filter_subset_no_dups(ids, pred);
        assert forall|i: int|
            0 <= i < cs.len() implies self.spec_is_customer(#[trigger] cs[i]) by {
            ids.lemma_filter_pred(pred, i);
            assert(cs.contains(cs[i]));
            assert(ids.contains(cs[i]));
            let j = choose|j: int| 0 <= j < ids.len() && ids[j] == cs[i];
            assert(self.nodes@[j].id == cs[i]);
        }
        assert forall|id: usize| self.spec_is_customer(id) implies cs.contains(id) by {
            let j = choose|j: int| 0 <= j < self.nodes@.len() && self.nodes@[j].id == id;
            assert(ids[j] == id);
            assert(pred(ids[j]));
            ids.lemma_filter_contains(pred, j);
        }
    }

    /// The customer identifiers, in node order.
    pub fn customers(&self) -> (r: Vec<usize>)
        ensures
            r@ == self.customer_seq(),
    {
        let ghost pred: spec_fn(usize) -> bool = |id: usize| !self.depots@.contains(id);
        let mut r: Vec<usize> = Vec::new();
        let mut i: usize = 0;
        proof {
            assert(self.nodes@.subrange(0, 0).map_values(|n: Node| n.id).filter(pred)
                =~= Seq::<usize>::empty());
        }
        while i < self.nodes.len()
            invariant
                0 <= i <= self.nodes@.len(),
                pred == (|id: usize| !self.depots@.contains(id)),
                r@ == self.nodes@.subrange(0, i as int).map_values(|n: Node| n.id).filter(pred),
            decreases self.nodes@.len() - i,
        {
            let id = self.nodes[i].id;
            let ghost pre = self.nodes@.subrange(0, i as int).map_values(|n: Node| n.id);
            let ghost post = self.nodes@.subrange(0, i as int + 1).map_values(|n: Node| n.id);
            proof {
                assert(post =~= pre.push(id));
                reveal(Seq::filter);
                assert(post.drop_last() =~= pre);
                assert(post.filter(pred) == if pred(id) {
                    pre.filter(pred).push(id)
                } else {
                    pre.filter(pred)
                });
            }
            if !self.contains_depot(id) {
                r.push(id);
            }
            i += 1;
        }
        proof {
            assert(self.nodes@.subrange(0, self.nodes@.len() as int) =~= self.nodes@);
        }
        r
    }
}

/// Filtering keeps only elements of the original sequence, and keeps a
/// duplicate-free sequence duplicate-free.
proof fn lemma_filter_subset_no_dups(s: Seq<usize>, pred: spec_fn(usize) -> bool)
    requires
        forall|i: int, j: int| 0 <= i < j < s.len() ==> s[i] != s[j],
    ensures
        forall|x: usize| #[trigger] s.filter(pred).contains(x) ==> s.contains(x),
        forall|i: int, j: int|
            0 <= i < j < s.filter(pred).len() ==> s.filter(pred)[i] != s.filter(pred)[j],
    decreases s.len(),
{
    reveal(Seq::filter);
    if s.len() == 0 {
        assert(s.filter(pred) =~= Seq::<usize>::empty());
    } else {
        let t = s.drop_last();
        let last = s.last();
        assert(forall|i: int, j: int| 0 <= i < j < t.len() ==> t[i] != t[j]);
        lemma_filter_subset_no_dups(t, pred);
        let ft = t.filter(pred);
        let fs = s.filter(pred);
        assert forall|x: usize| #[trigger] fs.contains(x) implies s.contains(x) by {
            if pred(last) {
                assert(fs == ft.push(last));
                let k = choose|k: int| 0 <= k < fs.len() && fs[k] == x;
                if k < ft.len() {
                    assert(ft.contains(x));
                    let j = choose|j: int| 0 <= j < t.len() && t[j] == x;
                    assert(s[j] == x);
                } else {
                    assert(x == last);
                    assert(s[s.len() - 1] == x);
                }
            } else {
                assert(fs == ft);
                let j = choose|j: int| 0 <= j < t.len() && t[j] == x;
                assert(s[j] == x);
            }
        }
        if pred(last) {
            assert(fs == ft.push(last));
            assert(!t.contains(last)) by {
                if t.contains(last) {
                    let j = choose|j: int| 0 <= j < t.len() && t[j] == last;
                    assert(s[j] == s[s.len() - 1]);
                }
            }
            assert(!ft.contains(last));
            assert forall|i: int, j: int| 0 <= i < j < fs.len() implies fs[i] != fs[j] by {
                if j < ft.len() {
                } else {
                    assert(fs[j] == last);
                    assert(ft.contains(fs[i])) by {
                        assert(ft[i] == fs[i]);
                    }
                }
            }
        } else {
            assert(fs == ft);
        }
    }
}

} // verus!
