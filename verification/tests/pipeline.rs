use vrp_pipeline::clustering::{
    ClusterAux, ClusterStrategy, ClusterTspClustering, FileClustering, KNNClustering,
};
use vrp_pipeline::instance::{Instance, Node, TspKind};
use vrp_pipeline::reindex::{reindex_vrp, remap_tours};
use vrp_pipeline::solver::{aggregate_paths, validate_kind, VrpSolver};
use vrp_pipeline::solvers::{DummySolver, SolvingOutput};
use vrp_pipeline::tsp_util::calculate_solution_score;
use vrp_pipeline::VrpError;

fn make_instance(
    name: &str,
    capacity: u64,
    nodes: Vec<(usize, i64, i64, u64)>,
    depots: Vec<usize>,
) -> Instance {
    let dim = nodes.len();
    Instance {
        name: String::from(name),
        comment: String::from("c"),
        kind: TspKind::Cvrp,
        dim,
        capacity,
        weight_kind: String::from("Euc2d"),
        weight_format: String::from("Function"),
        edge_format: String::from("Undefined"),
        coord_kind: String::from("Coord2d"),
        disp_kind: String::from("NoDisplay"),
        nodes: nodes
            .into_iter()
            .map(|(id, x, y, demand)| Node { id, x, y, demand })
            .collect(),
        depots,
        fixed_edges: vec![],
    }
}

#[test]
fn round_trip_scoring() {
    let inst = make_instance(
        "t",
        10,
        vec![(1, 0, 0, 0), (2, 3, 0, 0), (3, 3, 4, 0)],
        vec![],
    );
    let score = calculate_solution_score(&inst, &vec![vec![1, 2, 3]]);
    assert_eq!(score, Some(12));
}

#[test]
fn scoring_rejects_unknown_node() {
    let inst = make_instance("t", 10, vec![(1, 0, 0, 0), (2, 3, 0, 0)], vec![]);
    assert_eq!(calculate_solution_score(&inst, &vec![vec![1, 9]]), None);
}

#[test]
fn scoring_rejects_empty_tour() {
    let inst = make_instance("t", 10, vec![(1, 0, 0, 0)], vec![]);
    assert_eq!(calculate_solution_score(&inst, &vec![vec![]]), None);
}

#[test]
fn empty_result_handling() {
    // A problem with no non-depot nodes decomposes into zero clusters,
    // and the aggregated solution is the empty tour list with length 0.
    let inst = make_instance("t", 10, vec![(1, 0, 0, 0)], vec![1]);
    let strat = ClusterTspClustering {};
    let clusters = strat.cluster(&inst).unwrap();
    assert_eq!(clusters.len(), 0);
    let aggregated = aggregate_paths(vec![]);
    assert_eq!(aggregated.output().len(), 0);
    let score = calculate_solution_score(&inst, aggregated.output());
    assert_eq!(score, Some(0));
}

#[test]
fn greedy_partitions_under_capacity() {
    let inst = make_instance(
        "t",
        10,
        vec![
            (1, 0, 0, 0),
            (2, 1, 0, 3),
            (3, 2, 0, 4),
            (4, 3, 0, 3),
            (5, 10, 0, 4),
        ],
        vec![1],
    );
    let strat = ClusterTspClustering {};
    let clusters = strat.cluster(&inst).unwrap();
    assert_eq!(clusters, vec![vec![2, 3, 4], vec![5]]);
    for c in &clusters {
        let total: u64 = c
            .iter()
            .map(|id| inst.nodes.iter().find(|n| n.id == *id).unwrap().demand)
            .sum();
        assert!(total <= inst.capacity);
    }
}

#[test]
fn greedy_is_deterministic() {
    let inst = make_instance(
        "t",
        10,
        vec![(1, 0, 0, 0), (2, 1, 0, 3), (3, 2, 0, 4), (4, 9, 0, 5)],
        vec![1],
    );
    let strat = ClusterTspClustering {};
    let first = strat.cluster(&inst).unwrap();
    let second = strat.cluster(&inst).unwrap();
    assert_eq!(first, second);
}

#[test]
fn greedy_rejects_oversized_demand() {
    let inst = make_instance("t", 10, vec![(1, 0, 0, 0), (2, 1, 0, 11)], vec![1]);
    let strat = ClusterTspClustering {};
    assert_eq!(strat.cluster(&inst), Err(VrpError::Infeasible));
}

#[test]
fn knn_buckets_by_assignment() {
    let inst = make_instance(
        "t",
        10,
        vec![(1, 0, 0, 0), (2, 1, 0, 1), (3, 2, 0, 1), (4, 3, 0, 1)],
        vec![1],
    );
    let knn = KNNClustering { count: 2 };
    let clusters = knn.cluster_assignments(&inst, &vec![0, 1, 0]).unwrap();
    assert_eq!(clusters, vec![vec![2, 4], vec![3]]);
}

#[test]
fn knn_rejects_bad_assignment() {
    let inst = make_instance("t", 10, vec![(1, 0, 0, 0), (2, 1, 0, 1)], vec![1]);
    let knn = KNNClustering { count: 2 };
    assert_eq!(
        knn.cluster_assignments(&inst, &vec![2]),
        Err(VrpError::BadClusterInput)
    );
    assert_eq!(
        knn.cluster_assignments(&inst, &vec![0, 0]),
        Err(VrpError::BadClusterInput)
    );
}

#[test]
fn file_clustering_orders_by_rank() {
    let inst = make_instance(
        "t",
        10,
        vec![(1, 0, 0, 0), (2, 1, 0, 1), (3, 2, 0, 1)],
        vec![1],
    );
    let fc = FileClustering {
        map_file_path: String::from("unused"),
    };
    let clusters = fc.cluster_text(&inst, "2 1\n3 0\n-1\n").unwrap();
    assert_eq!(clusters, vec![vec![3, 2]]);
}

#[test]
fn file_clustering_keeps_order_among_equal_ranks() {
    let inst = make_instance(
        "t",
        10,
        vec![(1, 0, 0, 0), (2, 1, 0, 1), (3, 2, 0, 1)],
        vec![1],
    );
    let fc = FileClustering {
        map_file_path: String::from("unused"),
    };
    let clusters = fc.cluster_text(&inst, "2 5\n3 5\n-1\n").unwrap();
    assert_eq!(clusters, vec![vec![2, 3]]);
}

#[test]
fn strategy_dispatch_reads_mapping_groups() {
    let inst = make_instance(
        "t",
        10,
        vec![(1, 0, 0, 0), (2, 1, 0, 1), (3, 2, 0, 1)],
        vec![1],
    );
    let strat = ClusterStrategy::File(FileClustering {
        map_file_path: String::from("unused"),
    });
    let groups = vec![vec![(2, 1), (3, 0)]];
    assert_eq!(
        strat.cluster(&inst, ClusterAux::MappingGroups(groups)),
        Ok(vec![vec![3, 2]])
    );
}

#[test]
fn file_clustering_rejects_incomplete_cover() {
    let inst = make_instance(
        "t",
        10,
        vec![(1, 0, 0, 0), (2, 1, 0, 1), (3, 2, 0, 1)],
        vec![1],
    );
    let fc = FileClustering {
        map_file_path: String::from("unused"),
    };
    assert_eq!(
        fc.cluster_text(&inst, "2 0\n-1\n"),
        Err(VrpError::Infeasible)
    );
}

#[test]
fn file_clustering_rejects_malformed_text() {
    let inst = make_instance("t", 10, vec![(1, 0, 0, 0), (2, 1, 0, 1)], vec![1]);
    let fc = FileClustering {
        map_file_path: String::from("unused"),
    };
    assert_eq!(
        fc.cluster_text(&inst, "2\n-1\n"),
        Err(VrpError::BadClusterInput)
    );
    assert_eq!(
        fc.cluster_text(&inst, "2 x\n-1\n"),
        Err(VrpError::BadClusterInput)
    );
}

#[test]
fn strategy_dispatch_demands_matching_input() {
    let inst = make_instance("t", 10, vec![(1, 0, 0, 0), (2, 1, 0, 1)], vec![1]);
    let strat = ClusterStrategy::Knn(KNNClustering { count: 1 });
    assert_eq!(
        strat.cluster(&inst, ClusterAux::Unused),
        Err(VrpError::BadClusterInput)
    );
    let strat = ClusterStrategy::Tsp(ClusterTspClustering {});
    assert_eq!(
        strat.cluster(&inst, ClusterAux::Unused),
        Ok(vec![vec![2]])
    );
}

#[test]
fn wrong_kind_is_rejected() {
    let mut inst = make_instance("t", 10, vec![(1, 0, 0, 0)], vec![1]);
    assert!(validate_kind(&inst).is_ok());
    inst.kind = TspKind::Tsp;
    assert_eq!(validate_kind(&inst), Err(VrpError::WrongKind));
}

#[test]
fn sub_instances_carry_distinct_names() {
    let inst = make_instance(
        "parent",
        10,
        vec![(1, 0, 0, 0), (2, 1, 0, 3), (3, 10, 0, 9)],
        vec![1],
    );
    let solver = VrpSolver {
        cluster_strat: ClusterStrategy::Tsp(ClusterTspClustering {}),
        build_dir: None,
    };
    let clusters = vec![vec![2], vec![3]];
    let subs = solver.cluster_tsps(&inst, &clusters);
    assert_eq!(subs.len(), 2);
    assert_eq!(subs[0].name, "parent_0");
    assert_eq!(subs[1].name, "parent_1");
    assert_ne!(subs[0].name, subs[1].name);
    let dir = solver.build_dir();
    assert_eq!(dir, "./.vrp");
    let p0 = solver.sub_vrp_path(&dir, &subs[0].name);
    let p1 = solver.sub_vrp_path(&dir, &subs[1].name);
    assert_eq!(p0, "./.vrp/parent_0.vrp");
    assert_ne!(p0, p1);
}

#[test]
fn reindex_is_a_bijection() {
    let inst = make_instance(
        "t",
        10,
        vec![(7, 0, 0, 0), (9, 1, 0, 2), (12, 2, 0, 3)],
        vec![7],
    );
    let (reindexed, map) = reindex_vrp(&inst);
    assert_eq!(
        reindexed.nodes.iter().map(|n| n.id).collect::<Vec<_>>(),
        vec![1, 2, 3]
    );
    assert_eq!(reindexed.depots, vec![1]);
    // inverting the map returns exactly the original id for every image
    let back = remap_tours(&map, &vec![vec![1, 2, 3]]).unwrap();
    assert_eq!(back, vec![vec![7, 9, 12]]);
}

#[test]
fn remap_rejects_unknown_local_id() {
    let inst = make_instance("t", 10, vec![(7, 0, 0, 0)], vec![7]);
    let (_reindexed, map) = reindex_vrp(&inst);
    assert_eq!(
        remap_tours(&map, &vec![vec![2]]),
        Err(VrpError::ExternalTool)
    );
}

#[test]
fn end_to_end_scenario() {
    // A depot plus four customers, capacity 10, run through greedy
    // clustering and the trivial terminal solver: the remapped tours
    // name the original identifiers, with no collisions among the
    // customers of different clusters.
    let inst = make_instance(
        "test",
        10,
        vec![
            (1, 0, 0, 0),
            (2, 1, 0, 3),
            (3, 2, 0, 4),
            (4, 3, 0, 3),
            (5, 10, 0, 4),
        ],
        vec![1],
    );
    assert!(validate_kind(&inst).is_ok());
    let solver = VrpSolver {
        cluster_strat: ClusterStrategy::Tsp(ClusterTspClustering {}),
        build_dir: None,
    };
    let clusters = solver
        .cluster_strat
        .cluster(&inst, ClusterAux::Unused)
        .unwrap();
    assert_eq!(clusters, vec![vec![2, 3, 4], vec![5]]);
    let subs = solver.cluster_tsps(&inst, &clusters);
    let dummy = DummySolver;
    let mut parts: Vec<Vec<Vec<usize>>> = Vec::new();
    for sub in &subs {
        let (reindexed, map) = reindex_vrp(sub);
        let local = dummy.solve_instance(&reindexed).unwrap();
        let remapped = remap_tours(&map, local.output()).unwrap();
        parts.push(remapped);
    }
    let aggregated = aggregate_paths(parts);
    // the first sub-instance holds the depot and customers 2, 3, 4 under
    // local ids 1..=4; the trivial tour maps back to all of them
    assert_eq!(aggregated.output(), &vec![vec![1, 2, 3, 4], vec![1, 5]]);
    // no customer id appears in two clusters
    let mut seen = Vec::new();
    for c in &clusters {
        for id in c {
            assert!(!seen.contains(id));
            seen.push(*id);
        }
    }
    let score = solver.calculate_solution_score(&inst, &aggregated);
    assert!(score.is_some());
}

#[test]
fn solving_output_round_trip() {
    let out = SolvingOutput::new(vec![vec![1, 2], vec![3]]);
    assert_eq!(out.output(), &vec![vec![1, 2], vec![3]]);
    assert_eq!(out.into_vec(), vec![vec![1, 2], vec![3]]);
}
