use vrp_pipeline::hybrid::{
    decode_qubo_output, finish_lp_text, lp_objective, lp_variable_names, qubo_matrix,
    write_coordinate,
};
use vrp_pipeline::instance::{Instance, Node, TspKind};
use vrp_pipeline::num::{isqrt, u64_to_string};
use vrp_pipeline::serializer::{camel_to_snake, serialize_tsp, to_upper, write_tours};
use vrp_pipeline::solvers::{
    derive_artifact_path, file_stem, DummySolver, FileSolver, HybridTspSolver,
    HybridTspSolverType, LKHSolver, SolvingOutput,
};
use vrp_pipeline::VrpError;

fn make_instance(
    name: &str,
    capacity: u64,
    nodes: Vec<(usize, i64, i64, u64)>,
    depots: Vec<usize>,
) -> Instance {
    let dim = nodes.len();
    Instance {
        name: String::from(name),
        comment: String::from("c"),
        kind: TspKind::Cvrp,
        dim,
        capacity,
        weight_kind: String::from("Euc2d"),
        weight_format: String::from("Function"),
        edge_format: String::from("Undefined"),
        coord_kind: String::from("Coord2d"),
        disp_kind: String::from("NoDisplay"),
        nodes: nodes
            .into_iter()
            .map(|(id, x, y, demand)| Node { id, x, y, demand })
            .collect(),
        depots,
        fixed_edges: vec![],
    }
}

#[test]
fn integer_square_roots() {
    assert_eq!(isqrt(0), 0);
    assert_eq!(isqrt(24), 4);
    assert_eq!(isqrt(25), 5);
    assert_eq!(isqrt(26), 5);
}

#[test]
fn decimal_rendering() {
    assert_eq!(u64_to_string(0), "0");
    assert_eq!(u64_to_string(907), "907");
}

#[test]
fn camel_to_snake_splits_upper_case() {
    assert_eq!(camel_to_snake(String::from("Euc2d")), "_euc2d");
    assert_eq!(camel_to_snake(String::from("FullMatrix")), "_full_matrix");
    assert_eq!(camel_to_snake(String::from("plain")), "plain");
}

#[test]
fn upper_casing() {
    assert_eq!(to_upper("_euc2d"), "_EUC2D");
    assert_eq!(to_upper("Cvrp"), "CVRP");
}

#[test]
fn serializes_instance_text() {
    let inst = make_instance(
        "t",
        10,
        vec![(1, 0, 0, 0), (2, 3, 0, 2), (3, 3, 4, 3)],
        vec![1],
    );
    let text = serialize_tsp(&inst).unwrap();
    let expected = "NAME: t\nTYPE: CVRP\nCOMMENT: c\nDIMENSION: 3\nCAPACITY: 10\nEDGE_WEIGHT_TYPE: _EUC2D\nEDGE_WEIGHT_FORMAT: _FUNCTION\nEDGE_DATA_FORMAT: _UNDEFINED\nNODE_COORD_TYPE: _COORD2D\nDISP_DATA_TYPE: _NO_DISPLAY\nNODE_COORD_SECTION: \n1 0 0\n\n2 3 0\n\n3 3 4\n\nDEPOT_SECTION: \n1\n-1\nDEMAND_SECTION: \n1 0\n2 2\n3 3\nEOF\n";
    assert_eq!(text, expected);
}

#[test]
fn serializer_rejects_empty_sections() {
    let inst = make_instance("t", 10, vec![], vec![]);
    assert_eq!(serialize_tsp(&inst), Err(VrpError::EmptyInstance));
}

#[test]
fn writes_tour_text() {
    let inst = make_instance(
        "t",
        10,
        vec![(1, 0, 0, 0), (2, 3, 0, 0), (3, 3, 4, 0)],
        vec![],
    );
    let solution = SolvingOutput::new(vec![vec![1, 2, 3]]);
    let text = write_tours(&inst, &solution).unwrap();
    let expected =
        "NAME : t solved with length 12\nTYPE : TOUR\nDIMENSION : 3\nTOUR_SECTION\n1 2 3 -1\n-1\nEOF";
    assert_eq!(text, expected);
}

#[test]
fn tour_text_needs_scorable_tours() {
    let inst = make_instance("t", 10, vec![(1, 0, 0, 0)], vec![]);
    let solution = SolvingOutput::new(vec![vec![]]);
    assert_eq!(write_tours(&inst, &solution), Err(VrpError::ExternalTool));
}

#[test]
fn dummy_solver_returns_trivial_tour() {
    let inst = make_instance(
        "t",
        10,
        vec![(1, 0, 0, 0), (2, 1, 0, 1), (3, 2, 0, 1)],
        vec![1],
    );
    let dummy = DummySolver;
    let out = dummy.solve_instance(&inst).unwrap();
    assert_eq!(out.output(), &vec![vec![1, 2, 3]]);
}

#[test]
fn dummy_solver_rejects_large_ids() {
    let inst = make_instance("t", 10, vec![(1, 0, 0, 0), (9, 1, 0, 1)], vec![1]);
    let dummy = DummySolver;
    assert_eq!(
        dummy.solve_instance(&inst).err(),
        Some(VrpError::ExternalTool)
    );
}

#[test]
fn artifact_paths_swap_the_extension() {
    assert_eq!(derive_artifact_path("work/sub_0.vrp", "coo"), "work/sub_0.coo");
    assert_eq!(derive_artifact_path("noext", "tour"), "tour");
    let lkh = LKHSolver {
        binary: String::from("./bin/LKH"),
    };
    assert_eq!(lkh.tour_output_path("work/sub_0.vrp"), "work/sub_0.tour");
}

#[test]
fn solution_paths_use_the_file_stem() {
    assert_eq!(file_stem("work/sub_0.vrp"), "sub_0");
    assert_eq!(file_stem("plain"), "plain");
    let fs = FileSolver {
        solution_file_dir: String::from("sols"),
    };
    assert_eq!(fs.solution_file_path("work/sub_0.vrp"), "sols/sub_0.sol");
}

#[test]
fn hybrid_type_names() {
    assert_eq!(
        HybridTspSolver {
            quantum_type: HybridTspSolverType::Simulated
        }
        .quantum_type
        .name(),
        "sim"
    );
    assert_eq!(HybridTspSolverType::QbSolv.name(), "qbsolv");
    assert_eq!(HybridTspSolverType::LeapHybrid.name(), "hybrid");
    assert_eq!(HybridTspSolverType::Direct.name(), "direct");
}

#[test]
fn qubo_matrix_entries() {
    // two nodes five apart: the penalty weight is 2 * 5 = 10
    let inst = make_instance("t", 10, vec![(1, 0, 0, 0), (2, 3, 4, 1)], vec![1]);
    let m = qubo_matrix(&inst).unwrap();
    assert_eq!(m.len(), 4);
    assert_eq!(m[0].len(), 4);
    assert_eq!(m[0][0], -20);
    assert_eq!(m[0][1], 20);
    assert_eq!(m[0][2], 20);
    assert_eq!(m[0][3], 5);
    assert_eq!(m[1][1], -20);
    assert_eq!(m[1][0], 0);
    assert_eq!(m[1][2], 5);
    assert_eq!(m[2][1], 0);
}

#[test]
fn qubo_matrix_rejects_excess_demand() {
    let inst = make_instance("t", 1, vec![(1, 0, 0, 0), (2, 3, 4, 2)], vec![1]);
    assert_eq!(qubo_matrix(&inst), Err(VrpError::Infeasible));
}

#[test]
fn coordinate_text_lists_nonzero_cells() {
    let m = vec![vec![0, 2], vec![0, -3]];
    let text = write_coordinate(&m);
    let expected = "%%MatrixMarket matrix coordinate real general\n1 2 2\n2 2 -3\n";
    assert_eq!(text, expected);
}

#[test]
fn lp_objective_text() {
    let m = vec![vec![0, 2], vec![0, -3]];
    let text = lp_objective(&m);
    assert_eq!(text, "0 + [ 4 x1 * x2 - 6 x2 * x2 ] / 2");
}

#[test]
fn lp_variable_names_text() {
    assert_eq!(lp_variable_names(3), "x1 x2 x3");
}

#[test]
fn finishing_the_lp_text() {
    let rendered = "obj: things\nBounds\n0 <= x1";
    let done = finish_lp_text(rendered, "x1 x2").unwrap();
    assert_eq!(done, "obj: things\n \n\nBinary\nx1 x2\nEnd");
    assert_eq!(
        finish_lp_text("no marker here", "x1"),
        Err(VrpError::ExternalTool)
    );
}

#[test]
fn decoding_the_annealer_answer() {
    // two chunks of two tokens: point 1 takes place 1, point 2 place 0
    let tour = decode_qubo_output("0 1 1 0", 2).unwrap();
    assert_eq!(tour, vec![2, 1]);
    // points claiming the same position keep chunk order
    let tied = decode_qubo_output("1 0 1 0", 2).unwrap();
    assert_eq!(tied, vec![1, 2]);
    assert_eq!(
        decode_qubo_output("0 0 1 0", 2),
        Err(VrpError::ExternalTool)
    );
}
