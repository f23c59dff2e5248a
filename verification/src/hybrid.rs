//! The annealing-backed solving path: encoding a sub-instance as a
//! quadratic binary program over one-hot position variables, the text
//! artifacts handed to the external annealer, and the decoding of its
//! answer into a tour.
use vstd::prelude::*;

use crate::clustering::sort_pairs_by_rank;
use crate::instance::{Instance, MAX_NODES};
use crate::num::{dec_rep, dec_rep_int, push_i64, push_u64};
use crate::text::{parse_usize, spec_tokens, token_is, tokenize};
use crate::tsp_util::{lemma_distance_bounds, spec_distance, MAX_EDGE_LEN};
use crate::VrpError;

verus! {

/// The demand of the first `k` nodes, summed.
pub open spec fn spec_demand_upto(inst: Instance, k: int) -> int
    decreases k,
{
    if k <= 0 {
        0
    } else {
        spec_demand_upto(inst, k - 1) + inst.nodes@[k - 1].demand
    }
}

/// The total demand of an instance's nodes.
pub open spec fn spec_total_demand(inst: Instance) -> int {
    spec_demand_upto(inst, inst.nodes@.len() as int)
}

/// `m` is the largest distance between any two of the local nodes
/// `1..=dim`, or zero when there is none.
pub open spec fn is_max_dist(inst: Instance, m: int) -> bool {
    &&& (forall|u: int, v: int|
        1 <= u <= inst.dim && 1 <= v <= inst.dim ==> #[trigger] spec_distance(
            inst,
            u as usize,
            v as usize,
        ) <= m)
    &&& (m == 0 || exists|u: int, v: int|
        1 <= u <= inst.dim && 1 <= v <= inst.dim && #[trigger] spec_distance(
            inst,
            u as usize,
            v as usize,
        ) == m)
}

/// The largest pairwise distance of the local nodes, or zero.
pub open spec fn spec_max_dist(inst: Instance) -> int {
    choose|m: int| is_max_dist(inst, m)
}

/// The penalty weight of the encoding: the dimension times the largest
/// pairwise distance.
pub open spec fn spec_penalty(inst: Instance) -> int {
    (inst.dim as int) * spec_max_dist(inst)
}

/// One cell of the encoding before folding: the one-hot penalties for
/// the cell's row group and column group, the diagonal discount, and
/// the travel cost between consecutive positions.
pub open spec fn spec_qubo_pre(inst: Instance, a: int, r: int, c: int) -> int {
    let dim = inst.dim as int;
    (if r / dim == c / dim {
        a
    } else {
        0
    }) + (if r % dim == c % dim {
        a
    } else {
        0
    }) + (if r == c {
        -4 * a
    } else {
        0
    }) + (if c % dim == r % dim + 1 {
        spec_distance(inst, (r / dim + 1) as usize, (c / dim + 1) as usize)
    } else {
        0
    })
}

/// One cell of the finished encoding: the strict upper triangle carries
/// its own cell folded with its mirror, the diagonal stands alone, and
/// the strict lower triangle is zero.
pub open spec fn spec_qubo_entry(inst: Instance, a: int, r: int, c: int) -> int {
    if r < c {
        spec_qubo_pre(inst, a, r, c) + spec_qubo_pre(inst, a, c, r)
    } else if r == c {
        spec_qubo_pre(inst, a, r, c)
    } else {
        0
    }
}

/// Builds the quadratic binary encoding of a sub-instance, as an
/// upper-triangular matrix over the `dim * dim` one-hot variables.
/// Fails exactly when the total demand exceeds the capacity, which no
/// single tour could serve.
pub fn qubo_matrix(tsp: &Instance) -> (r: Result<Vec<Vec<i64>>, VrpError>)
    requires
        tsp.wf(),
        tsp.dim >= 1,
        forall|v: int| 1 <= v <= tsp.dim ==> #[trigger] tsp.spec_has_node(v as usize),
    ensures
        r is Ok <==> (spec_total_demand(*tsp) <= tsp.capacity && (tsp.dim as int) * (
        tsp.dim as int) <= usize::MAX),
        r matches Ok(m) ==> {
            &&& m@.len() == tsp.dim * tsp.dim
            &&& (forall|i: int|
                0 <= i < m@.len() ==> (#[trigger] m@[i])@.len() == tsp.dim * tsp.dim)
            &&& (forall|i: int, j: int|
                0 <= i < m@.len() && 0 <= j < m@.len() ==> (#[trigger] m@[i]@[j]) as int
                    == spec_qubo_entry(*tsp, spec_penalty(*tsp), i, j))
            &&& (forall|i: int, j: int|
                0 <= i < m@.len() && 0 <= j < m@.len() ==> -2000000000000000 <= (
                #[trigger] m@[i]@[j]) as int <= 2000000000000000)
        },
        r matches Err(e) ==> e == VrpError::Infeasible,
{
    let mut td: u128 = 0;
    let mut i: usize = 0;
    while i < tsp.nodes.len()
        invariant
            0 <= i <= tsp.nodes@.len(),
            tsp.nodes@.len() <= MAX_NODES,
            tsp.wf(),
            td as int == spec_demand_upto(*tsp, i as int),
            td as int <= i * (u64::MAX as int),
        decreases tsp.nodes@.len() - i,
    {
        proof {
            assert(i * (u64::MAX as int) + u64::MAX == (i + 1) * (u64::MAX as int))
                by (nonlinear_arith);
            assert((i + 1) * (u64::MAX as int) < u128::MAX) by (nonlinear_arith)
                requires
                    0 <= i + 1 <= MAX_NODES + 1,
            ;
        }
        td = td + tsp.nodes[i].demand as u128;
        i += 1;
    }
    if td > tsp.capacity as u128 {
        return Err(VrpError::Infeasible);
    }
    let dim = tsp.dim;
    let mut dists: Vec<Vec<u64>> = Vec::new();
    let mut mx: u64 = 0;
    let mut u: usize = 1;
    while u <= dim
        invariant
            tsp.wf(),
            1 <= u <= dim + 1,
            dim == tsp.dim,
            dim >= 1,
            forall|v: int| 1 <= v <= tsp.dim ==> #[trigger] tsp.spec_has_node(v as usize),
            dists@.len() == u - 1,
            forall|a: int|
                0 <= a < u - 1 ==> (#[trigger] dists@[a])@.len() == dim,
            forall|a: int, b: int|
                0 <= a < u - 1 && 0 <= b < dim ==> (#[trigger] dists@[a]@[b]) as int
                    == spec_distance(*tsp, (a + 1) as usize, (b + 1) as usize),
            mx <= MAX_EDGE_LEN,
            forall|a: int, b: int|
                0 <= a < u - 1 && 0 <= b < dim ==> #[trigger] spec_distance(
                    *tsp,
                    (a + 1) as usize,
                    (b + 1) as usize,
                ) <= mx,
            mx == 0 || (exists|a: int, b: int|
                1 <= a <= dim && 1 <= b <= dim && #[trigger] spec_distance(
                    *tsp,
                    a as usize,
                    b as usize,
                ) == mx),
        decreases dim + 1 - u,
    {
        let mut row: Vec<u64> = Vec::new();
        let mut v: usize = 1;
        while v <= dim
            invariant
                tsp.wf(),
                1 <= u <= dim,
                1 <= v <= dim + 1,
                dim == tsp.dim,
                forall|w: int| 1 <= w <= tsp.dim ==> #[trigger] tsp.spec_has_node(w as usize),
                row@.len() == v - 1,
                dists@.len() == u - 1,
                forall|a: int| 0 <= a < u - 1 ==> (#[trigger] dists@[a])@.len() == dim,
                forall|a: int, b: int|
                    0 <= a < u - 1 && 0 <= b < dim ==> (#[trigger] dists@[a]@[b]) as int
                        == spec_distance(*tsp, (a + 1) as usize, (b + 1) as usize),
                forall|a: int, b: int|
                    0 <= a < u - 1 && 0 <= b < dim ==> #[trigger] spec_distance(
                        *tsp,
                        (a + 1) as usize,
                        (b + 1) as usize,
                    ) <= mx,
                forall|b: int|
                    0 <= b < v - 1 ==> (#[trigger] row@[b]) as int == spec_distance(
                        *tsp,
                        u as usize,
                        (b + 1) as usize,
                    ),
                mx <= MAX_EDGE_LEN,
                forall|b: int|
                    0 <= b < v - 1 ==> #[trigger] spec_distance(*tsp, u as usize, (b + 1) as usize)
                        <= mx,
                mx == 0 || (exists|a: int, b: int|
                    1 <= a <= dim && 1 <= b <= dim && #[trigger] spec_distance(
                        *tsp,
                        a as usize,
                        b as usize,
                    ) == mx),
            decreases dim + 1 - v,
        {
            proof {
                assert(tsp.spec_has_node(u as usize)) by {
                    assert(tsp.spec_has_node(((u as int)) as usize));
                }
                assert(tsp.spec_has_node(v as usize)) by {
                    assert(tsp.spec_has_node(((v as int)) as usize));
                }
            }
            let d = match tsp.node_distance(u, v) {
                Some(d) => d,
                None => {
                    unreached()
                },
            };
            proof {
                lemma_distance_bounds(*tsp, u as usize, v as usize);
            }
            if d > mx {
                mx = d;
                proof {
                    assert(1 <= u as int <= dim && 1 <= v as int <= dim && spec_distance(
                        *tsp,
                        (u as int) as usize,
                        (v as int) as usize,
                    ) == mx);
                }
            }
            row.push(d);
            v += 1;
        }
        dists.push(row);
        u += 1;
    }
    proof {
        assert forall|x: int, y: int|
            1 <= x <= tsp.dim && 1 <= y <= tsp.dim implies #[trigger] spec_distance(
            *tsp,
            x as usize,
            y as usize,
        ) <= mx as int by {
            assert(dists@[x - 1]@[y - 1] as int == spec_distance(
                *tsp,
                ((x - 1) + 1) as usize,
                ((y - 1) + 1) as usize,
            ));
            assert(spec_distance(*tsp, ((x - 1) + 1) as usize, ((y - 1) + 1) as usize) <= mx);
        }
        assert(is_max_dist(*tsp, mx as int));
        lemma_max_dist_eq(*tsp, mx as int);
    }
    proof {
        assert((dim as int) * (mx as int) <= 28284271000000 && (dim as int) * (mx as int) >= 0)
            by (nonlinear_arith)
            requires
                1 <= dim as int <= 1000000,
                0 <= mx as int <= 28284271,
        ;
        assert((dim as int) * (dim as int) <= 1000000000000) by (nonlinear_arith)
            requires
                1 <= dim as int <= 1000000,
        ;
    }
    let a: i64 = (dim as i64) * (mx as i64);
    let dim2: usize = match dim.checked_mul(dim) {
        Some(d2) => d2,
        None => {
            return Err(VrpError::Infeasible);
        },
    };
    let mut m: Vec<Vec<i64>> = Vec::new();
    let mut r: usize = 0;
    while r < dim2
        invariant
            tsp.wf(),
            dim == tsp.dim,
            dim >= 1,
            dim2 == dim * dim,
            dim2 <= 1000000000000,
            a as int == (dim as int) * (mx as int),
            0 <= a as int <= 28284271000000,
            a as int == spec_penalty(*tsp),
            dists@.len() == dim,
            forall|x: int| 0 <= x < dim ==> (#[trigger] dists@[x])@.len() == dim,
            forall|x: int, y: int|
                0 <= x < dim && 0 <= y < dim ==> (#[trigger] dists@[x]@[y]) as int == spec_distance(
                    *tsp,
                    (x + 1) as usize,
                    (y + 1) as usize,
                ),
            forall|x: int, y: int|
                0 <= x < dim && 0 <= y < dim ==> 0 <= (#[trigger] dists@[x]@[y]) as int
                    <= MAX_EDGE_LEN,
            0 <= r <= dim2,
            m@.len() == r,
            forall|x: int| 0 <= x < r ==> (#[trigger] m@[x])@.len() == dim2,
            forall|x: int, y: int|
                0 <= x < r && 0 <= y < dim2 ==> (#[trigger] m@[x]@[y]) as int == spec_qubo_entry(
                    *tsp,
                    a as int,
                    x,
                    y,
                ),
            forall|x: int, y: int|
                0 <= x < r && 0 <= y < dim2 ==> -2000000000000000 <= (#[trigger] m@[x]@[y]) as int
                    <= 2000000000000000,
        decreases dim2 - r,
    {
        let mut row: Vec<i64> = Vec::new();
        let mut c: usize = 0;
        while c < dim2
            invariant
                tsp.wf(),
                dim == tsp.dim,
                dim >= 1,
                dim2 == dim * dim,
                dim2 <= 1000000000000,
                a as int == spec_penalty(*tsp),
                0 <= a as int <= 28284271000000,
                dists@.len() == dim,
                forall|x: int| 0 <= x < dim ==> (#[trigger] dists@[x])@.len() == dim,
                forall|x: int, y: int|
                    0 <= x < dim && 0 <= y < dim ==> (#[trigger] dists@[x]@[y]) as int
                        == spec_distance(*tsp, (x + 1) as usize, (y + 1) as usize),
                forall|x: int, y: int|
                    0 <= x < dim && 0 <= y < dim ==> 0 <= (#[trigger] dists@[x]@[y]) as int
                        <= MAX_EDGE_LEN,
                0 <= r < dim2,
                0 <= c <= dim2,
                row@.len() == c,
                forall|y: int|
                    0 <= y < c ==> (#[trigger] row@[y]) as int == spec_qubo_entry(
                        *tsp,
                        a as int,
                        r as int,
                        y,
                    ),
                forall|y: int|
                    0 <= y < c ==> -2000000000000000 <= (#[trigger] row@[y]) as int
                        <= 2000000000000000,
            decreases dim2 - c,
        {
            let v: i64 = if r < c {
                let p1 = qubo_pre_cell(tsp, &dists, a, r, c, dim);
                let p2 = qubo_pre_cell(tsp, &dists, a, c, r, dim);
                p1 + p2
            } else if r == c {
                qubo_pre_cell(tsp, &dists, a, r, c, dim)
            } else {
                0
            };
            row.push(v);
            c += 1;
        }
        m.push(row);
        r += 1;
    }
    Ok(m)
}

/// The largest-distance predicate picks one value.
proof fn lemma_max_dist_eq(inst: Instance, m: int)
    requires
        inst.wf(),
        inst.dim >= 1,
        forall|v: int| 1 <= v <= inst.dim ==> #[trigger] inst.spec_has_node(v as usize),
        is_max_dist(inst, m),
    ensures
        spec_max_dist(inst) == m,
{
    assert(exists|x: int| is_max_dist(inst, x)) by {
        assert(is_max_dist(inst, m));
    }
    let w = spec_max_dist(inst);
    assert(is_max_dist(inst, w));
    if m != w {
        if m != 0 {
            let (u1, v1) = choose|u1: int, v1: int|
                1 <= u1 <= inst.dim && 1 <= v1 <= inst.dim && #[trigger] spec_distance(
                    inst,
                    u1 as usize,
                    v1 as usize,
                ) == m;
            assert(m <= w);
        }
        if w != 0 {
            let (u2, v2) = choose|u2: int, v2: int|
                1 <= u2 <= inst.dim && 1 <= v2 <= inst.dim && #[trigger] spec_distance(
                    inst,
                    u2 as usize,
                    v2 as usize,
                ) == w;
            assert(w <= m);
        }
        if m == 0 {
            let (u2, v2) = choose|u2: int, v2: int|
                1 <= u2 <= inst.dim && 1 <= v2 <= inst.dim && #[trigger] spec_distance(
                    inst,
                    u2 as usize,
                    v2 as usize,
                ) == w;
            assert(inst.spec_has_node(u2 as usize)) by {
                assert(inst.spec_has_node(((u2 as int)) as usize));
            }
            assert(inst.spec_has_node(v2 as usize)) by {
                assert(inst.spec_has_node(((v2 as int)) as usize));
            }
            lemma_distance_bounds(inst, u2 as usize, v2 as usize);
        }
        if w == 0 {
            let (u1, v1) = choose|u1: int, v1: int|
                1 <= u1 <= inst.dim && 1 <= v1 <= inst.dim && #[trigger] spec_distance(
                    inst,
                    u1 as usize,
                    v1 as usize,
                ) == m;
            assert(inst.spec_has_node(u1 as usize)) by {
                assert(inst.spec_has_node(((u1 as int)) as usize));
            }
            assert(inst.spec_has_node(v1 as usize)) by {
                assert(inst.spec_has_node(((v1 as int)) as usize));
            }
            lemma_distance_bounds(inst, u1 as usize, v1 as usize);
        }
    }
}

/// One cell of the encoding before folding.
fn qubo_pre_cell(tsp: &Instance, dists: &Vec<Vec<u64>>, a: i64, r: usize, c: usize, dim: usize) -> (
    v: i64)
    requires
        tsp.wf(),
        dim == tsp.dim,
        dim >= 1,
        r < dim * dim,
        c < dim * dim,
        0 <= a as int <= 28284271000000,
        dists@.len() == dim,
        forall|x: int| 0 <= x < dim ==> (#[trigger] dists@[x])@.len() == dim,
        forall|x: int, y: int|
            0 <= x < dim && 0 <= y < dim ==> (#[trigger] dists@[x]@[y]) as int == spec_distance(
                *tsp,
                (x + 1) as usize,
                (y + 1) as usize,
            ),
        forall|x: int, y: int|
            0 <= x < dim && 0 <= y < dim ==> 0 <= (#[trigger] dists@[x]@[y]) as int <= MAX_EDGE_LEN,
    ensures
        v as int == spec_qubo_pre(*tsp, a as int, r as int, c as int),
        -5 * 28284271000000 <= v as int <= 3 * 28284271000000,
{
    let rg = r / dim;
    let cg = c / dim;
    let rp = r % dim;
    let cp = c % dim;
    proof {
        assert(rg < dim && cg < dim) by (nonlinear_arith)
            requires
                dim >= 1,
                r < dim * dim,
                c < dim * dim,
                rg == r as int / dim as int,
                cg == c as int / dim as int,
        ;
    }
    let mut v: i64 = 0;
    if rg == cg {
        v = v + a;
    }
    if rp == cp {
        v = v + a;
    }
    if r == c {
        v = v - 4 * a;
    }
    if cp == rp + 1 {
        let d = dists[rg][cg];
        v = v + d as i64;
    }
    v
}

/// One cell's line in the sparse-matrix text: row, column and value,
/// one-based, for nonzero cells only.
pub open spec fn spec_coo_cell(row: Seq<i64>, i: int, j: int) -> Seq<char> {
    if row[j] != 0 {
        dec_rep((i + 1) as nat) + seq![' '] + dec_rep((j + 1) as nat) + seq![' '] + dec_rep_int(
            row[j] as int,
        ) + seq!['\n']
    } else {
        Seq::empty()
    }
}

/// The lines of one row's first `k` cells.
pub open spec fn spec_coo_row(row: Seq<i64>, i: int, k: int) -> Seq<char>
    decreases k,
{
    if k <= 0 {
        Seq::empty()
    } else {
        spec_coo_row(row, i, k - 1) + spec_coo_cell(row, i, k - 1)
    }
}

/// The lines of the first `k` rows.
pub open spec fn spec_coo_rows(m: Seq<Seq<i64>>, k: int) -> Seq<char>
    decreases k,
{
    if k <= 0 {
        Seq::empty()
    } else {
        spec_coo_rows(m, k - 1) + spec_coo_row(m[k - 1], k - 1, m[k - 1].len() as int)
    }
}

/// The sparse-matrix text of the encoding: a header line, then one line
/// per nonzero cell.
pub open spec fn spec_coo_text(m: Seq<Seq<i64>>) -> Seq<char> {
    "%%MatrixMarket matrix coordinate real general\n"@ + spec_coo_rows(m, m.len() as int)
}

/// Writes the encoding in the sparse coordinate text format.
pub fn write_coordinate(matrix: &Vec<Vec<i64>>) -> (r: String)
    ensures
        r@ == spec_coo_text(matrix.deep_view()),
{
    let ghost dm = matrix.deep_view();
    let mut out = String::new();
    proof {
        reveal_strlit("%%MatrixMarket matrix coordinate real general\n");
        assert(dm.len() == matrix@.len());
        assert(forall|i: int| 0 <= i < matrix@.len() ==> (#[trigger] dm[i]) == matrix@[i]@);
    }
    out.append("%%MatrixMarket matrix coordinate real general\n");
    let mlen = matrix.len();
    let mut i: usize = 0;
    while i < mlen
        invariant
            dm == matrix.deep_view(),
            dm.len() == matrix@.len(),
            mlen == matrix@.len(),
            forall|k: int| 0 <= k < matrix@.len() ==> (#[trigger] dm[k]) == matrix@[k]@,
            0 <= i <= matrix@.len(),
            out@ == "%%MatrixMarket matrix coordinate real general\n"@ + spec_coo_rows(
                dm,
                i as int,
            ),
        decreases matrix@.len() - i,
    {
        let row = &matrix[i];
        let rlen = row.len();
        let mut j: usize = 0;
        while j < rlen
            invariant
                dm == matrix.deep_view(),
                dm.len() == matrix@.len(),
                mlen == matrix@.len(),
                forall|k: int| 0 <= k < matrix@.len() ==> (#[trigger] dm[k]) == matrix@[k]@,
                0 <= i < matrix@.len(),
                row@ == dm[i as int],
                rlen == row@.len(),
                0 <= j <= row@.len(),
                out@ == "%%MatrixMarket matrix coordinate real general\n"@ + spec_coo_rows(
                    dm,
                    i as int,
                ) + spec_coo_row(dm[i as int], i as int, j as int),
            decreases row@.len() - j,
        {
            let v = row[j];
            if v != 0 {
                push_u64(&mut out, (i + 1) as u64);
                proof {
                    reveal_strlit(" ");
                    reveal_strlit("\n");
                }
                out.append(" ");
                push_u64(&mut out, (j + 1) as u64);
                out.append(" ");
                push_i64(&mut out, v);
                out.append("\n");
            }
            proof {
                assert(out@ =~= "%%MatrixMarket matrix coordinate real general\n"@
                    + spec_coo_rows(dm, i as int) + spec_coo_row(
                    dm[i as int],
                    i as int,
                    j as int + 1,
                ));
            }
            j += 1;
        }
        proof {
            assert(out@ =~= "%%MatrixMarket matrix coordinate real general\n"@ + spec_coo_rows(
                dm,
                i as int + 1,
            ));
        }
        i += 1;
    }
    proof {
        assert(out@ =~= spec_coo_text(dm));
    }
    out
}

/// One objective term: the doubled cell value and its two variables.
pub open spec fn spec_lp_term(v: i64, i: int, j: int) -> Seq<char> {
    dec_rep_int(2 * (v as int)) + " x"@ + dec_rep((i + 1) as nat) + " * x"@ + dec_rep(
        (j + 1) as nat,
    )
}

/// The term strings of one row's first `k` nonzero cells.
pub open spec fn spec_lp_terms_upto(row: Seq<i64>, i: int, k: int) -> Seq<Seq<char>>
    decreases k,
{
    if k <= 0 {
        Seq::empty()
    } else {
        let p = spec_lp_terms_upto(row, i, k - 1);
        if row[k - 1] != 0 {
            p.push(spec_lp_term(row[k - 1], i, k - 1))
        } else {
            p
        }
    }
}

/// Items joined by the objective separator.
pub open spec fn spec_join_plus(items: Seq<Seq<char>>) -> Seq<char>
    decreases items.len(),
{
    if items.len() == 0 {
        Seq::empty()
    } else if items.len() == 1 {
        items[0]
    } else {
        spec_join_plus(items.drop_last()) + " + "@ + items.last()
    }
}

/// The row strings of the first `k` rows.
pub open spec fn spec_lp_rows_upto(m: Seq<Seq<i64>>, k: int) -> Seq<Seq<char>>
    decreases k,
{
    if k <= 0 {
        Seq::empty()
    } else {
        spec_lp_rows_upto(m, k - 1).push(
            spec_join_plus(spec_lp_terms_upto(m[k - 1], k - 1, m[k - 1].len() as int)),
        )
    }
}

/// The raw objective: all rows' term strings joined, rows joined again,
/// before sign fixing.
pub open spec fn spec_lp_raw(m: Seq<Seq<i64>>) -> Seq<char> {
    spec_join_plus(spec_lp_rows_upto(m, m.len() as int))
}

/// Folds each separator that is followed by a minus sign into a minus
/// separator, left to right.
pub open spec fn spec_fix_signs(s: Seq<char>) -> Seq<char>
    decreases s.len(),
{
    if s.len() == 0 {
        s
    } else if s.len() >= 3 && s[0] == '+' && s[1] == ' ' && s[2] == '-' {
        seq!['-', ' '] + spec_fix_signs(s.skip(3))
    } else {
        seq![s[0]] + spec_fix_signs(s.skip(1))
    }
}

/// The objective expression handed to the linear-program writer.
pub open spec fn spec_lp_objective(m: Seq<Seq<i64>>) -> Seq<char> {
    "0 + [ "@ + spec_fix_signs(spec_lp_raw(m)) + " ] / 2"@
}

/// Rewrites separator-minus pairs as minus separators, as the objective
/// text requires.
fn fix_signs(s: &str) -> (r: String)
    ensures
        r@ == spec_fix_signs(s@),
{
    let n = s.unicode_len();
    let mut out = String::new();
    let mut i: usize = 0;
    proof {
        assert(s@.skip(0) =~= s@);
    }
    while i < n
        invariant
            0 <= i <= n,
            n == s@.len(),
            spec_fix_signs(s@) == out@ + spec_fix_signs(s@.skip(i as int)),
        decreases n - i,
    {
        let ghost suf = s@.skip(i as int);
        proof {
            assert(suf.len() == n - i);
            assert(forall|k: int| 0 <= k < suf.len() ==> suf[k] == s@[i + k]);
        }
        if n - i > 2 && s.get_char(i) == '+' && s.get_char(i + 1) == ' ' && s.get_char(i + 2)
            == '-' {
            proof {
                reveal_strlit("- ");
                assert(suf[0] == '+' && suf[1] == ' ' && suf[2] == '-');
                assert(spec_fix_signs(suf) == seq!['-', ' '] + spec_fix_signs(suf.skip(3)));
                assert(suf.skip(3) =~= s@.skip(i as int + 3));
            }
            out.append("- ");
            proof {
                assert(spec_fix_signs(s@) =~= out@ + spec_fix_signs(s@.skip(i as int + 3)));
            }
            i += 3;
        } else {
            let one = s.substring_char(i, i + 1);
            proof {
                assert(suf[0] == s@[i as int]);
                assert(!(suf.len() >= 3 && suf[0] == '+' && suf[1] == ' ' && suf[2] == '-'));
                assert(spec_fix_signs(suf) == seq![suf[0]] + spec_fix_signs(suf.skip(1)));
                assert(suf.skip(1) =~= s@.skip(i as int + 1));
            }
            out.append(one);
            proof {
                assert(spec_fix_signs(s@) =~= out@ + spec_fix_signs(s@.skip(i as int + 1)));
            }
            i += 1;
        }
    }
    proof {
        assert(s@.skip(n as int) =~= Seq::<char>::empty());
        assert(spec_fix_signs(s@) =~= out@);
    }
    out
}

/// Builds the objective expression of the linear-program encoding from
/// the matrix.
pub fn lp_objective(matrix: &Vec<Vec<i64>>) -> (r: String)
    requires
        forall|i: int, j: int|
            0 <= i < matrix@.len() && 0 <= j < (#[trigger] matrix@[i])@.len()
                ==> -2000000000000000 <= (#[trigger] matrix@[i]@[j]) as int <= 2000000000000000,
    ensures
        r@ == spec_lp_objective(matrix.deep_view()),
{
    let ghost dm = matrix.deep_view();
    let mlen = matrix.len();
    let mut raw = String::new();
    let mut i: usize = 0;
    proof {
        assert(dm.len() == matrix@.len());
        assert(forall|k: int| 0 <= k < matrix@.len() ==> (#[trigger] dm[k]) == matrix@[k]@);
        assert(raw@ =~= spec_join_plus(spec_lp_rows_upto(dm, 0)));
    }
    while i < mlen
        invariant
            dm == matrix.deep_view(),
            dm.len() == matrix@.len(),
            mlen == matrix@.len(),
            forall|k: int| 0 <= k < matrix@.len() ==> (#[trigger] dm[k]) == matrix@[k]@,
            forall|x: int, y: int|
                0 <= x < matrix@.len() && 0 <= y < (#[trigger] matrix@[x])@.len()
                    ==> -2000000000000000 <= (#[trigger] matrix@[x]@[y]) as int
                    <= 2000000000000000,
            0 <= i <= matrix@.len(),
            raw@ == spec_join_plus(spec_lp_rows_upto(dm, i as int)),
        decreases matrix@.len() - i,
    {
        if i > 0 {
            proof {
                reveal_strlit(" + ");
            }
            raw.append(" + ");
        }
        let row = &matrix[i];
        let rlen = row.len();
        let mut emitted: usize = 0;
        let mut j: usize = 0;
        proof {
            assert(spec_lp_terms_upto(dm[i as int], i as int, 0) =~= Seq::<Seq<char>>::empty());
        }
        let ghost base = raw@;
        while j < rlen
            invariant
                dm == matrix.deep_view(),
                dm.len() == matrix@.len(),
                mlen == matrix@.len(),
                forall|k: int| 0 <= k < matrix@.len() ==> (#[trigger] dm[k]) == matrix@[k]@,
                forall|x: int, y: int|
                    0 <= x < matrix@.len() && 0 <= y < (#[trigger] matrix@[x])@.len()
                        ==> -2000000000000000 <= (#[trigger] matrix@[x]@[y]) as int
                        <= 2000000000000000,
                0 <= i < matrix@.len(),
                row@ == dm[i as int],
                rlen == row@.len(),
                row@ == matrix@[i as int]@,
                0 <= j <= row@.len(),
                emitted == spec_lp_terms_upto(dm[i as int], i as int, j as int).len(),
                emitted <= j,
                raw@ == base + spec_join_plus(
                    spec_lp_terms_upto(dm[i as int], i as int, j as int),
                ),
            decreases row@.len() - j,
        {
            let v = row[j];
            if v != 0 {
                if emitted > 0 {
                    proof {
                        reveal_strlit(" + ");
                    }
                    raw.append(" + ");
                }
                proof {
                    assert(matrix@[i as int]@[j as int] == v);
                    assert(-2000000000000000 <= v as int <= 2000000000000000);
                }
                let dv: i64 = 2 * v;
                push_i64(&mut raw, dv);
                proof {
                    reveal_strlit(" x");
                    reveal_strlit(" * x");
                }
                raw.append(" x");
                push_u64(&mut raw, (i + 1) as u64);
                raw.append(" * x");
                push_u64(&mut raw, (j + 1) as u64);
            }
            proof {
                let pre = spec_lp_terms_upto(dm[i as int], i as int, j as int);
                let post = spec_lp_terms_upto(dm[i as int], i as int, j as int + 1);
                if dm[i as int][j as int] != 0 {
                    assert(post == pre.push(spec_lp_term(row@[j as int], i as int, j as int)));
                    if pre.len() == 0 {
                        assert(spec_join_plus(post) =~= spec_lp_term(
                            row@[j as int],
                            i as int,
                            j as int,
                        )) by {
                            assert(post.len() == 1);
                            assert(post[0] == spec_lp_term(row@[j as int], i as int, j as int));
                        }
                    } else {
                        assert(post.drop_last() =~= pre);
                    }
                    assert(raw@ =~= base + spec_join_plus(post));
                } else {
                    assert(post == pre);
                }
            }
            if v != 0 {
                emitted += 1;
            }
            j += 1;
        }
        proof {
            let rows_pre = spec_lp_rows_upto(dm, i as int);
            let rows_post = spec_lp_rows_upto(dm, i as int + 1);
            assert(rows_post == rows_pre.push(
                spec_join_plus(
                    spec_lp_terms_upto(dm[i as int], i as int, dm[i as int].len() as int),
                ),
            ));
            if rows_pre.len() == 0 {
                assert(spec_join_plus(rows_post) =~= rows_post[0]) by {
                    assert(rows_post.len() == 1);
                }
            } else {
                assert(rows_post.drop_last() =~= rows_pre);
            }
            assert(raw@ =~= spec_join_plus(rows_post));
        }
        i += 1;
    }
    let fixed = fix_signs(raw.as_str());
    let mut out = String::new();
    proof {
        reveal_strlit("0 + [ ");
        reveal_strlit(" ] / 2");
    }
    out.append("0 + [ ");
    out.append(fixed.as_str());
    out.append(" ] / 2");
    proof {
        assert(out@ =~= spec_lp_objective(dm));
    }
    out
}

/// The variable names of the encoding, space separated.
pub fn lp_variable_names(count: usize) -> (r: String)
    ensures
        r@ == crate::serializer::spec_join_sp(
            Seq::new(count as nat, |i: int| seq!['x'] + dec_rep((i + 1) as nat)),
        ),
{
    let ghost items = Seq::new(count as nat, |i: int| seq!['x'] + dec_rep((i + 1) as nat));
    let mut out = String::new();
    let mut i: usize = 0;
    proof {
        assert(items.subrange(0, 0) =~= Seq::<Seq<char>>::empty());
        assert(out@ =~= crate::serializer::spec_join_sp(items.subrange(0, 0)));
    }
    while i < count
        invariant
            items == Seq::new(count as nat, |i: int| seq!['x'] + dec_rep((i + 1) as nat)),
            0 <= i <= count,
            out@ == crate::serializer::spec_join_sp(items.subrange(0, i as int)),
        decreases count - i,
    {
        let ghost pre = items.subrange(0, i as int);
        let ghost post = items.subrange(0, i as int + 1);
        proof {
            assert(post =~= pre.push(items[i as int]));
            assert(post.drop_last() =~= pre);
        }
        if i > 0 {
            proof {
                reveal_strlit(" ");
            }
            out.append(" ");
        } else {
            proof {
                assert(crate::serializer::spec_join_sp(pre) =~= Seq::<char>::empty());
            }
        }
        proof {
            reveal_strlit("x");
        }
        out.append("x");
        push_u64(&mut out, (i as u64) + 1);
        proof {
            assert(out@ =~= crate::serializer::spec_join_sp(post));
        }
        i += 1;
    }
    proof {
        assert(items.subrange(0, count as int) =~= items);
    }
    out
}

/// The pattern occurs at position `i` of `s`.
pub open spec fn spec_matches_at(s: Seq<char>, pat: Seq<char>, i: int) -> bool {
    0 <= i && i + pat.len() <= s.len() && s.subrange(i, i + pat.len()) == pat
}

/// The first position the pattern occurs at.
pub open spec fn spec_find(s: Seq<char>, pat: Seq<char>) -> int {
    choose|i: int| spec_matches_at(s, pat, i) && (forall|j: int| 0 <= j < i ==> !spec_matches_at(s, pat, j))
}

/// Truncates the rendered linear program at its bounds marker and
/// appends the binary-variable section instead. Fails exactly when the
/// marker does not occur.
pub fn finish_lp_text(rendered: &str, vars: &str) -> (r: Result<String, VrpError>)
    ensures
        r is Ok <==> (exists|i: int| spec_matches_at(rendered@, "Bounds"@, i)),
        r matches Ok(o) ==> o@ == rendered@.subrange(0, spec_find(rendered@, "Bounds"@))
            + " \n\nBinary\n"@ + vars@ + "\nEnd"@,
        r matches Err(e) ==> e == VrpError::ExternalTool,
{
    let n = rendered.unicode_len();
    let m = "Bounds".unicode_len();
    let mut i: usize = 0;
    proof {
        reveal_strlit("Bounds");
    }
    if m > n {
        proof {
            assert forall|k: int| !spec_matches_at(rendered@, "Bounds"@, k) by {}
        }
        return Err(VrpError::ExternalTool);
    }
    while i <= n - m
        invariant
            0 <= i <= n - m + 1,
            m <= n,
            m >= 1,
            n == rendered@.len(),
            m == "Bounds"@.len(),
            forall|k: int| 0 <= k < i ==> !spec_matches_at(rendered@, "Bounds"@, k),
        decreases n - m + 1 - i,
    {
        let mut j: usize = 0;
        let mut hit = true;
        while j < m && hit
            invariant
                0 <= j <= m,
                0 <= i <= n - m,
                n == rendered@.len(),
                m == "Bounds"@.len(),
                hit ==> (forall|k: int| 0 <= k < j ==> rendered@[i + k] == "Bounds"@[k]),
                !hit ==> (exists|k: int|
                    0 <= k < m && #[trigger] rendered@[i + k] != "Bounds"@[k]),
            decreases m - j,
        {
            if rendered.get_char(i + j) != "Bounds".get_char(j) {
                proof {
                    assert(rendered@[i as int + j] != "Bounds"@[j as int]);
                }
                hit = false;
            }
            j += 1;
        }
        if hit {
            proof {
                assert(rendered@.subrange(i as int, i as int + m) =~= "Bounds"@);
                assert(spec_matches_at(rendered@, "Bounds"@, i as int));
                assert(spec_find(rendered@, "Bounds"@) == i as int) by {
                    let w = spec_find(rendered@, "Bounds"@);
                    assert(spec_matches_at(rendered@, "Bounds"@, i as int) && (forall|j2: int|
                        0 <= j2 < i as int ==> !spec_matches_at(rendered@, "Bounds"@, j2)));
                    assert(spec_matches_at(rendered@, "Bounds"@, w) && (forall|j2: int|
                        0 <= j2 < w ==> !spec_matches_at(rendered@, "Bounds"@, j2)));
                    if w < i as int {
                        assert(!spec_matches_at(rendered@, "Bounds"@, w));
                    }
                    if w > i as int {
                        assert(!spec_matches_at(rendered@, "Bounds"@, i as int));
                    }
                }
            }
            let head = rendered.substring_char(0, i);
            let mut out = String::from_str(head);
            proof {
                reveal_strlit(" \n\nBinary\n");
                reveal_strlit("\nEnd");
            }
            out.append(" \n\nBinary\n");
            out.append(vars);
            out.append("\nEnd");
            proof {
                assert(out@ =~= rendered@.subrange(0, spec_find(rendered@, "Bounds"@))
                    + " \n\nBinary\n"@ + vars@ + "\nEnd"@);
            }
            return Ok(out);
        }
        proof {
            if spec_matches_at(rendered@, "Bounds"@, i as int) {
                let k = choose|k: int|
                    0 <= k < m && #[trigger] rendered@[i + k] != "Bounds"@[k];
                assert(rendered@.subrange(i as int, i as int + m)[k] == "Bounds"@[k]);
                assert(false);
            }
        }
        i += 1;
    }
    proof {
        assert forall|k: int| !spec_matches_at(rendered@, "Bounds"@, k) by {
            if spec_matches_at(rendered@, "Bounds"@, k) {
                assert(0 <= k <= n - m);
            }
        }
    }
    Err(VrpError::ExternalTool)
}

/// The chunk starting at `point * dim` holds a token that is exactly
/// the digit one.
pub open spec fn spec_has_one(toks: Seq<Seq<char>>, dim: int, point: int) -> bool {
    exists|j: int|
        0 <= j < dim && point * dim + j < toks.len() && (#[trigger] toks[point * dim + j]) == "1"@
}

/// The position of the first one-token within the chunk.
pub open spec fn spec_place(toks: Seq<Seq<char>>, dim: int, point: int) -> int {
    choose|j: int|
        0 <= j < dim && point * dim + j < toks.len() && (#[trigger] toks[point * dim + j]) == "1"@
            && (forall|j2: int|
            0 <= j2 < j ==> !(point * dim + j2 < toks.len() && (#[trigger] toks[point * dim + j2])
                == "1"@))
}

/// The id-place pairs the answer denotes: chunk ordinal shifted by one,
/// and the position of the chunk's one-token.
pub open spec fn spec_answer_pairs(toks: Seq<Seq<char>>, dim: int, chunks: int) -> Seq<
    (usize, usize),
> {
    Seq::new(
        chunks as nat,
        |p: int| (((p + 1) as usize), (spec_place(toks, dim, p) as usize)),
    )
}

/// Decodes an external annealer's answer: the whitespace tokens are cut
/// into chunks of the dimension, each chunk names the position its
/// point takes by the index of its one-token, and the points come back
/// stably sorted by position, so points claiming the same position keep
/// chunk order. Fails exactly when some chunk has no one-token.
pub fn decode_qubo_output(text: &str, dim: usize) -> (r: Result<Vec<usize>, VrpError>)
    requires
        dim >= 1,
    ensures
        ({
            let toks = spec_tokens(text@);
            let chunks = (toks.len() as int + dim - 1) / (dim as int);
            &&& (r is Ok <==> (forall|p: int| 0 <= p < chunks ==> spec_has_one(toks, dim as int, p)))
            &&& (r matches Ok(t) ==> t@ == crate::clustering::ids_of(
                crate::clustering::spec_stable_sort(spec_answer_pairs(toks, dim as int, chunks)),
            ))
            &&& (r matches Err(e) ==> e == VrpError::ExternalTool)
        }),
{
    let toks = tokenize(text);
    let ghost dtoks = spec_tokens(text@);
    proof {
        assert(toks.deep_view() == dtoks);
        assert(toks@.len() == dtoks.len());
        assert(forall|k: int| 0 <= k < toks@.len() ==> (#[trigger] dtoks[k]) == toks@[k]@);
    }
    let nt = toks.len();
    let chunks: usize = if nt % dim != 0 {
        proof {
            assert(dim >= 2) by {
                if dim == 1 {
                    assert(nt as int % 1int == 0) by (nonlinear_arith);
                }
            }
            assert(nt as int / dim as int + 1 <= usize::MAX) by (nonlinear_arith)
                requires
                    dim >= 2,
                    0 <= nt <= usize::MAX,
            ;
        }
        nt / dim + 1
    } else {
        nt / dim
    };
    proof {
        assert(chunks as int == (dtoks.len() as int + dim - 1) / (dim as int)) by (nonlinear_arith)
            requires
                dim >= 1,
                nt == dtoks.len(),
                chunks as int == nt as int / dim as int + if nt as int % dim as int != 0 {
                    1int
                } else {
                    0int
                },
        ;
    }
    let mut pairs: Vec<(usize, usize)> = Vec::new();
    let mut p: usize = 0;
    while p < chunks
        invariant
            dim >= 1,
            dtoks == spec_tokens(text@),
            dtoks.len() == toks@.len(),
            forall|k: int| 0 <= k < toks@.len() ==> (#[trigger] dtoks[k]) == toks@[k]@,
            nt == toks@.len(),
            chunks as int == (nt as int + dim - 1) / (dim as int),
            0 <= p <= chunks,
            pairs@.len() == p,
            forall|q: int| 0 <= q < p ==> spec_has_one(dtoks, dim as int, q),
            forall|q: int|
                0 <= q < p ==> (#[trigger] pairs@[q]) == (
                ((q + 1) as usize),
                (spec_place(dtoks, dim as int, q) as usize),
            ),
        decreases chunks - p,
    {
        let ghost pv = p as int;
        proof {
            assert(pv * (dim as int) < nt as int) by (nonlinear_arith)
                requires
                    0 <= pv,
                    pv < (nt as int + dim - 1) / (dim as int),
                    dim >= 1,
            ;
            assert(pv * (dim as int) >= 0) by (nonlinear_arith)
                requires
                    pv >= 0,
                    dim >= 1,
            ;
        }
        let base: usize = match p.checked_mul(dim) {
            Some(b) => b,
            None => {
                unreached()
            },
        };
        let limit: usize = if nt - base < dim {
            nt - base
        } else {
            dim
        };
        let mut place: Option<usize> = None;
        let mut j: usize = 0;
        while j < limit && place.is_none()
            invariant
                dim >= 1,
                dtoks.len() == toks@.len(),
                forall|k: int| 0 <= k < toks@.len() ==> (#[trigger] dtoks[k]) == toks@[k]@,
                nt == toks@.len(),
                base == pv * (dim as int),
                0 <= base < nt,
                limit <= dim,
                base + limit <= nt,
                limit == dim || base + limit == nt,
                0 <= j <= limit,
                place is None ==> (forall|j2: int|
                    0 <= j2 < j ==> !(pv * (dim as int) + j2 < dtoks.len() && (#[trigger] dtoks[pv
                        * (dim as int) + j2]) == "1"@)),
                place matches Some(pl) ==> pl < limit && pv * (dim as int) + pl < dtoks.len()
                    && dtoks[pv * (dim as int) + pl] == "1"@ && (forall|j2: int|
                    0 <= j2 < pl ==> !(pv * (dim as int) + j2 < dtoks.len() && (#[trigger] dtoks[pv
                        * (dim as int) + j2]) == "1"@)),
            decreases limit - j,
        {
            if token_is(&toks[base + j], "1") {
                proof {
                    assert(dtoks[pv * (dim as int) + j] == toks@[base + j as int]@);
                }
                place = Some(j);
            } else {
                proof {
                    assert(dtoks[pv * (dim as int) + j] == toks@[base + j as int]@);
                }
            }
            j += 1;
        }
        match place {
            Some(pl) => {
                proof {
                    assert(spec_has_one(dtoks, dim as int, pv)) by {
                        assert(0 <= pl as int && (pl as int) < dim && pv * (dim as int) + pl
                            < dtoks.len() && dtoks[pv * (dim as int) + pl as int] == "1"@);
                    }
                    assert(spec_place(dtoks, dim as int, pv) == pl as int) by {
                        let w = spec_place(dtoks, dim as int, pv);
                        assert(0 <= pl as int && (pl as int) < dim && pv * (dim as int) + pl
                            < dtoks.len() && dtoks[pv * (dim as int) + pl as int] == "1"@ && (
                        forall|j2: int|
                            0 <= j2 < pl as int ==> !(pv * (dim as int) + j2 < dtoks.len() && (
                            #[trigger] dtoks[pv * (dim as int) + j2]) == "1"@)));
                        assert(0 <= w < dim && pv * (dim as int) + w < dtoks.len() && dtoks[pv * (
                        dim as int) + w] == "1"@ && (forall|j2: int|
                            0 <= j2 < w ==> !(pv * (dim as int) + j2 < dtoks.len() && (
                            #[trigger] dtoks[pv * (dim as int) + j2]) == "1"@)));
                        if w < pl as int {
                            assert(!(pv * (dim as int) + w < dtoks.len() && dtoks[pv * (
                            dim as int) + w] == "1"@));
                        }
                        if w > pl as int {
                            assert(!(pv * (dim as int) + (pl as int) < dtoks.len() && dtoks[pv
                                * (dim as int) + pl as int] == "1"@));
                        }
                    }
                }
                pairs.push((p + 1, pl));
            },
            None => {
                proof {
                    if spec_has_one(dtoks, dim as int, pv) {
                        let jw = choose|jw: int|
                            0 <= jw < dim && pv * (dim as int) + jw < dtoks.len() && (
                            #[trigger] dtoks[pv * (dim as int) + jw]) == "1"@;
                        assert(jw < limit as int) by {
                            if limit < dim {
                                assert(base + limit == nt);
                                assert(pv * (dim as int) + jw < nt);
                            }
                        }
                        assert(!(pv * (dim as int) + jw < dtoks.len() && dtoks[pv * (dim as int)
                            + jw] == "1"@));
                        assert(false);
                    }
                }
                return Err(VrpError::ExternalTool);
            },
        }
        p += 1;
    }
    let sorted = sort_pairs_by_rank(pairs);
    let mut tour: Vec<usize> = Vec::new();
    let mut i: usize = 0;
    while i < sorted.len()
        invariant
            0 <= i <= sorted@.len(),
            tour@ == crate::clustering::ids_of(sorted@.subrange(0, i as int)),
        decreases sorted@.len() - i,
    {
        let pr = sorted[i];
        tour.push(pr.0);
        proof {
            assert(sorted@.subrange(0, i as int + 1).drop_last() =~= sorted@.subrange(0, i as int));
            assert(tour@ =~= crate::clustering::ids_of(sorted@.subrange(0, i as int + 1)));
        }
        i += 1;
    }
    proof {
        assert(sorted@.subrange(0, sorted@.len() as int) =~= sorted@);
        assert(pairs@ =~= spec_answer_pairs(dtoks, dim as int, chunks as int));
        assert(tour@ == crate::clustering::ids_of(
            crate::clustering::spec_stable_sort(
                spec_answer_pairs(dtoks, dim as int, chunks as int),
            ),
        ));
    }
    Ok(tour)
}


} // verus!
