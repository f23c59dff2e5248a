//! The solving-strategy side of the pipeline that is computable from
//! plain values: the solution container, the trivial solver, and the
//! file-name derivations the external adapters use. The external
//! processes themselves run outside the library and only their inputs
//! and outputs pass through here.
use vstd::prelude::*;

use crate::instance::Instance;
use crate::num::{dec_rep, push_u64};
use crate::reindex::clone_string;
use crate::VrpError;

verus! {

/// What a solving strategy returns: an ordered list of tours, each an
/// ordered list of node identifiers.
pub struct SolvingOutput(Vec<Vec<usize>>);

impl View for SolvingOutput {
    type V = Seq<Seq<usize>>;

    closed spec fn view(&self) -> Seq<Seq<usize>> {
        self.0.deep_view()
    }
}

impl SolvingOutput {
    pub fn new(output: Vec<Vec<usize>>) -> (r: Self)
        ensures
            r@ == output.deep_view(),
    {
        Self(output)
    }

    pub fn output(&self) -> (r: &Vec<Vec<usize>>)
        ensures
            r.deep_view() == self@,
    {
        &self.0
    }

    /// Hands the tours back out.
    pub fn into_vec(self) -> (r: Vec<Vec<usize>>)
        ensures
            r.deep_view() == self@,
    {
        self.0
    }
}

/// The local identifiers `1..=dim`, in order: the trivial tour.
pub open spec fn spec_trivial_tour(dim: nat) -> Seq<usize> {
    Seq::new(dim, |i: int| (i + 1) as usize)
}

/// A terminal solver that returns the trivial tour over the local
/// identifiers of the instance it is given, for testing the pipeline
/// around it.
pub struct DummySolver;

impl DummySolver {
    /// The trivial solution: one tour visiting the local identifiers in
    /// order. Fails exactly when some node's identifier exceeds the
    /// declared dimension.
    pub fn solve_instance(&self, vrp: &Instance) -> (r: Result<SolvingOutput, VrpError>)
        requires
            vrp.dim >= 1,
            vrp.dim < usize::MAX,
        ensures
            r is Ok <==> (forall|i: int|
                0 <= i < vrp.nodes@.len() ==> (#[trigger] vrp.nodes@[i]).id <= vrp.dim),
            r matches Ok(o) ==> o@ == seq![spec_trivial_tour(vrp.dim as nat)],
            r matches Err(e) ==> e == VrpError::ExternalTool,
    {
        let mut i: usize = 0;
        while i < vrp.nodes.len()
            invariant
                0 <= i <= vrp.nodes@.len(),
                forall|j: int| 0 <= j < i ==> (#[trigger] vrp.nodes@[j]).id <= vrp.dim,
            decreases vrp.nodes@.len() - i,
        {
            if vrp.nodes[i].id > vrp.dim {
                return Err(VrpError::ExternalTool);
            }
            i += 1;
        }
        let mut tour: Vec<usize> = Vec::new();
        let mut id: usize = 1;
        while id <= vrp.dim
            invariant
                1 <= id <= vrp.dim + 1,
                vrp.dim < usize::MAX,
                tour@.len() == id - 1,
                forall|j: int| 0 <= j < tour@.len() ==> (#[trigger] tour@[j]) == j + 1,
            decreases vrp.dim + 1 - id,
        {
            tour.push(id);
            id += 1;
        }
        proof {
            assert(tour@ =~= spec_trivial_tour(vrp.dim as nat));
        }
        let ghost dtour = tour.deep_view();
        proof {
            assert(dtour =~= tour@);
        }
        let mut tours: Vec<Vec<usize>> = Vec::new();
        tours.push(tour);
        proof {
            assert(tours.deep_view().len() == 1);
            assert(tours.deep_view()[0] == tours@[0].deep_view());
            assert(tours.deep_view() =~= seq![spec_trivial_tour(vrp.dim as nat)]);
        }
        Ok(SolvingOutput::new(tours))
    }
}

/// The position of the last occurrence of `c`, if any.
pub open spec fn spec_last_index_of(s: Seq<char>, c: char) -> int {
    if s.contains(c) {
        choose|i: int| 0 <= i < s.len() && s[i] == c && (forall|j: int| i < j < s.len() ==> s[j] != c)
    } else {
        -1
    }
}

proof fn lemma_last_index_of(s: Seq<char>, c: char)
    requires
        s.contains(c),
    ensures
        0 <= spec_last_index_of(s, c) < s.len(),
        s[spec_last_index_of(s, c)] == c,
        forall|j: int| spec_last_index_of(s, c) < j < s.len() ==> s[j] != c,
    decreases s.len(),
{
    if s.last() == c {
        let w = s.len() - 1;
        assert(0 <= w < s.len() && s[w] == c && (forall|j: int| w < j < s.len() ==> s[j] != c));
    } else {
        let t = s.drop_last();
        assert(t.contains(c)) by {
            let i = choose|i: int| 0 <= i < s.len() && s[i] == c;
            assert(t[i] == c);
        }
        lemma_last_index_of(t, c);
        let w = spec_last_index_of(t, c);
        assert(s[w] == c);
        assert forall|j: int| w < j < s.len() implies s[j] != c by {
            if j < s.len() - 1 {
                assert(t[j] == s[j]);
            }
        }
        assert(0 <= w < s.len() && s[w] == c && (forall|j: int| w < j < s.len() ==> s[j] != c));
    }
}

/// The path kept up to and including its last dot, with the new
/// extension appended; a path without a dot gives the extension alone.
pub open spec fn spec_with_extension(path: Seq<char>, ext: Seq<char>) -> Seq<char> {
    if path.contains('.') {
        path.subrange(0, spec_last_index_of(path, '.') + 1) + ext
    } else {
        ext
    }
}

/// Derives the file name a solving adapter writes its artifact under:
/// everything up to and including the input path's last dot, then the
/// artifact's extension.
pub fn derive_artifact_path(path: &str, ext: &str) -> (r: String)
    ensures
        r@ == spec_with_extension(path@, ext@),
{
    let n = path.unicode_len();
    let mut dot: Option<usize> = None;
    let mut i: usize = 0;
    while i < n
        invariant
            0 <= i <= n,
            n == path@.len(),
            dot is Some ==> {
                let d = dot->Some_0;
                0 <= d < i && path@[d as int] == '.' && (forall|j: int|
                    d < j < i ==> path@[j] != '.')
            },
            dot is None ==> (forall|j: int| 0 <= j < i ==> path@[j] != '.'),
        decreases n - i,
    {
        let ch = path.get_char(i);
        if ch == '.' {
            dot = Some(i);
        }
        i += 1;
    }
    match dot {
        Some(d) => {
            proof {
                assert(path@.contains('.')) by {
                    assert(path@[d as int] == '.');
                }
                let w = spec_last_index_of(path@, '.');
                lemma_last_index_of(path@, '.');
                assert(w == d) by {
                    if w < d {
                        assert(path@[d as int] != '.');
                    }
                    if w > d {
                        assert(path@[w] != '.');
                    }
                }
            }
            let stem = path.substring_char(0, d + 1);
            let mut r = String::from_str(stem);
            r.append(ext);
            proof {
                assert(r@ =~= spec_with_extension(path@, ext@));
            }
            r
        },
        None => {
            proof {
                if path@.contains('.') {
                    let i0 = choose|i0: int| 0 <= i0 < path@.len() && path@[i0] == '.';
                    assert(false);
                }
            }
            String::from_str(ext)
        },
    }
}

/// The part of a path after its last separator and before its last dot:
/// the stem the solution file of an instance is named by.
pub open spec fn spec_file_stem(path: Seq<char>) -> Seq<char> {
    let base = if path.contains('/') {
        path.subrange(spec_last_index_of(path, '/') + 1, path.len() as int)
    } else {
        path
    };
    if base.contains('.') {
        base.subrange(0, spec_last_index_of(base, '.'))
    } else {
        base
    }
}

/// A terminal adapter that reads a previously computed solution file
/// for each sub-instance, from a configured directory.
pub struct FileSolver {
    pub solution_file_dir: String,
}

impl FileSolver {
    /// The path of the solution file for the sub-instance persisted at
    /// `path`: the configured directory, the instance file's stem and
    /// the solution suffix.
    pub fn solution_file_path(&self, path: &str) -> (r: String)
        ensures
            r@ == self.solution_file_dir@ + "/"@ + spec_file_stem(path@) + ".sol"@,
    {
        let stem = file_stem(path);
        let mut r = clone_string(&self.solution_file_dir);
        r.append("/");
        r.append(stem.as_str());
        r.append(".sol");
        r
    }
}

/// The stem of a file path: after the last separator, before the last
/// dot.
pub fn file_stem(path: &str) -> (r: String)
    ensures
        r@ == spec_file_stem(path@),
{
    let n = path.unicode_len();
    let mut sep: Option<usize> = None;
    let mut i: usize = 0;
    while i < n
        invariant
            0 <= i <= n,
            n == path@.len(),
            sep is Some ==> {
                let d = sep->Some_0;
                0 <= d < i && path@[d as int] == '/' && (forall|j: int|
                    d < j < i ==> path@[j] != '/')
            },
            sep is None ==> (forall|j: int| 0 <= j < i ==> path@[j] != '/'),
        decreases n - i,
    {
        if path.get_char(i) == '/' {
            sep = Some(i);
        }
        i += 1;
    }
    let start: usize = match sep {
        Some(d) => {
            proof {
                assert(path@.contains('/')) by {
                    assert(path@[d as int] == '/');
                }
                lemma_last_index_of(path@, '/');
                let w = spec_last_index_of(path@, '/');
                assert(w == d) by {
                    if w < d {
                        assert(path@[d as int] != '/');
                    }
                    if w > d {
                        assert(path@[w] != '/');
                    }
                }
            }
            d + 1
        },
        None => {
            proof {
                if path@.contains('/') {
                    let i0 = choose|i0: int| 0 <= i0 < path@.len() && path@[i0] == '/';
                    assert(false);
                }
            }
            0
        },
    };
    let base = path.substring_char(start, n);
    let ghost bview = path@.subrange(start as int, n as int);
    let bn = n - start;
    let mut dot: Option<usize> = None;
    let mut i: usize = 0;
    while i < bn
        invariant
            0 <= i <= bn,
            bn == bview.len(),
            base@ == bview,
            dot is Some ==> {
                let d = dot->Some_0;
                0 <= d < i && bview[d as int] == '.' && (forall|j: int|
                    d < j < i ==> bview[j] != '.')
            },
            dot is None ==> (forall|j: int| 0 <= j < i ==> bview[j] != '.'),
        decreases bn - i,
    {
        if base.get_char(i) == '.' {
            dot = Some(i);
        }
        i += 1;
    }
    proof {
        if path@.contains('/') {
            assert(bview =~= path@.subrange(spec_last_index_of(path@, '/') + 1, path@.len() as int));
        } else {
            assert(bview =~= path@);
        }
    }
    match dot {
        Some(d) => {
            proof {
                assert(bview.contains('.')) by {
                    assert(bview[d as int] == '.');
                }
                lemma_last_index_of(bview, '.');
                let w = spec_last_index_of(bview, '.');
                assert(w == d) by {
                    if w < d {
                        assert(bview[d as int] != '.');
                    }
                    if w > d {
                        assert(bview[w] != '.');
                    }
                }
            }
            let r = String::from_str(base.substring_char(0, d));
            proof {
                assert(r@ =~= spec_file_stem(path@));
            }
            r
        },
        None => {
            proof {
                if bview.contains('.') {
                    let i0 = choose|i0: int| 0 <= i0 < bview.len() && bview[i0] == '.';
                    assert(false);
                }
                assert(bview =~= spec_file_stem(path@));
            }
            String::from_str(base)
        },
    }
}

/// A terminal adapter that hands a sub-instance to an external
/// tour-finding program and reads its output file back.
pub struct LKHSolver {
    pub binary: String,
}

impl LKHSolver {
    /// The path the external program is told to write its tour to.
    pub fn tour_output_path(&self, path: &str) -> (r: String)
        ensures
            r@ == spec_with_extension(path@, "tour"@),
    {
        derive_artifact_path(path, "tour")
    }
}

/// The flavors of the annealing-backed solver.
pub enum HybridTspSolverType {
    Simulated,
    LeapHybrid,
    QbSolv,
    Direct,
}

impl HybridTspSolverType {
    /// The name the external solver is addressed by.
    pub fn name(&self) -> (r: String)
        ensures
            self is Simulated ==> r@ == "sim"@,
            self is LeapHybrid ==> r@ == "hybrid"@,
            self is QbSolv ==> r@ == "qbsolv"@,
            self is Direct ==> r@ == "direct"@,
    {
        match self {
            HybridTspSolverType::Simulated => String::from_str("sim"),
            HybridTspSolverType::LeapHybrid => String::from_str("hybrid"),
            HybridTspSolverType::QbSolv => String::from_str("qbsolv"),
            HybridTspSolverType::Direct => String::from_str("direct"),
        }
    }
}

/// The annealing-backed solver: transforms a sub-instance into a
/// quadratic binary program, hands it to an external annealer, and
/// decodes the returned assignment into a tour.
pub struct HybridTspSolver {
    pub quantum_type: HybridTspSolverType,
}

} // verus!
