use train_planner::destination::Destination;
use train_planner::error::PlanError;
use train_planner::graph::Graph;
use train_planner::route::Route;

fn sample_graph() -> Graph {
    let mut graph = Graph::new();
    graph.add_edge("A".to_string(), "B".to_string(), 40);
    graph.add_edge("A".to_string(), "C".to_string(), 10);
    graph.add_edge("B".to_string(), "C".to_string(), 20);
    graph.add_edge("B".to_string(), "D".to_string(), 10);
    graph.add_edge("C".to_string(), "D".to_string(), 50);
    graph
}

#[test]
fn test_graph() {
    let mut graph = Graph::new();
    graph.add_edge("A".to_string(), "B".to_string(), 40);
    graph.add_edge("A".to_string(), "C".to_string(), 10);
    graph.add_edge("B".to_string(), "C".to_string(), 20);
    graph.add_edge("B".to_string(), "D".to_string(), 10);
    graph.add_edge("C".to_string(), "D".to_string(), 50);
    let destination = graph
        .get_destination("A".to_string(), "D".to_string())
        .unwrap();
    assert_eq!(
        destination,
        Destination {
            from: "A".to_string(),
            to: "D".to_string(),
            distance: 10,
            cumulative_distance: 40,
            checkpoints: [
                Route {
                    to: "C".to_string(),
                    distance: 10,
                },
                Route {
                    to: "B".to_string(),
                    distance: 20,
                }
            ]
            .to_vec()
        }
    );
}

#[test]
#[should_panic]
fn test_graph_failure() {
    let mut graph = Graph::new();
    graph.add_edge("A".to_string(), "B".to_string(), 40);
    graph.add_edge("A".to_string(), "C".to_string(), 10);
    graph.add_edge("B".to_string(), "C".to_string(), 20);
    graph.add_edge("B".to_string(), "D".to_string(), 10);
    graph.add_edge("C".to_string(), "D".to_string(), 50);
    graph
        .get_destination("A".to_string(), "X".to_string())
        .unwrap();
}

#[test]
fn unreachable_destination_is_an_error() {
    let mut graph = sample_graph();
    assert_eq!(
        graph.get_destination("A".to_string(), "X".to_string()),
        Err(PlanError::Unreachable)
    );
}

#[test]
fn source_reaches_itself_at_no_distance() {
    let mut graph = sample_graph();
    let destination = graph
        .get_destination("A".to_string(), "A".to_string())
        .unwrap();
    assert_eq!(destination.cumulative_distance, 0);
    assert_eq!(destination.distance, 0);
    assert!(destination.checkpoints.is_empty());
    let alone = graph
        .get_destination("Z".to_string(), "Z".to_string())
        .unwrap();
    assert_eq!(alone.cumulative_distance, 0);
}

#[test]
fn path_table_is_remembered() {
    let mut graph = sample_graph();
    assert!(graph.cache.is_empty());
    let first = graph.dijkstra("A".to_string());
    assert_eq!(graph.cache.len(), 1);
    let second = graph.dijkstra("A".to_string());
    assert_eq!(graph.cache.len(), 1);
    assert_eq!(first, second);
    assert_eq!(first.len(), 4);
}

#[test]
fn add_edge_files_both_directions() {
    let mut graph = Graph::new();
    graph.add_edge("A".to_string(), "B".to_string(), 7);
    graph.add_edge("A".to_string(), "B".to_string(), 3);
    assert_eq!(graph.adj_list.len(), 2);
    assert_eq!(graph.adj_list[0].station, "A");
    assert_eq!(
        graph.adj_list[0].routes,
        vec![
            Route { to: "B".to_string(), distance: 7 },
            Route { to: "B".to_string(), distance: 3 }
        ]
    );
    assert_eq!(graph.adj_list[1].station, "B");
    assert_eq!(
        graph.adj_list[1].routes,
        vec![
            Route { to: "A".to_string(), distance: 7 },
            Route { to: "A".to_string(), distance: 3 }
        ]
    );
    let destination = graph
        .get_destination("A".to_string(), "B".to_string())
        .unwrap();
    assert_eq!(destination.cumulative_distance, 3);
}

#[test]
fn cumulative_distance_is_the_shortest() {
    let mut graph = sample_graph();
    let expected = [("A", 0), ("B", 30), ("C", 10), ("D", 40)];
    for (station, distance) in expected {
        let destination = graph
            .get_destination("A".to_string(), station.to_string())
            .unwrap();
        assert_eq!(destination.cumulative_distance, distance);
    }
}

#[test]
fn long_way_records_checkpoint_distances() {
    let mut graph = Graph::new();
    graph.add_edge("S".to_string(), "a".to_string(), 1);
    graph.add_edge("a".to_string(), "b".to_string(), 2);
    graph.add_edge("b".to_string(), "c".to_string(), 4);
    graph.add_edge("c".to_string(), "v".to_string(), 8);
    let destination = graph
        .get_destination("S".to_string(), "v".to_string())
        .unwrap();
    assert_eq!(destination.cumulative_distance, 15);
    assert_eq!(destination.distance, 8);
    assert_eq!(
        destination.checkpoints,
        vec![
            Route { to: "a".to_string(), distance: 1 },
            Route { to: "b".to_string(), distance: 2 },
            Route { to: "c".to_string(), distance: 4 }
        ]
    );
}

#[test]
fn calculate_neighbour_appends_the_leg_that_arrives() {
    let table = vec![
        Destination {
            from: "A".to_string(),
            to: "A".to_string(),
            distance: 0,
            cumulative_distance: 0,
            checkpoints: vec![],
        },
        Destination {
            from: "A".to_string(),
            to: "D".to_string(),
            distance: 30,
            cumulative_distance: 60,
            checkpoints: vec![
                Route { to: "B".to_string(), distance: 10 },
                Route { to: "C".to_string(), distance: 20 },
            ],
        },
    ];
    let next = Graph::calculate_neighbour(
        Route { to: "E".to_string(), distance: 5 },
        "A".to_string(),
        "D".to_string(),
        60,
        table,
    );
    assert_eq!(
        next,
        Some(Destination {
            from: "A".to_string(),
            to: "E".to_string(),
            distance: 5,
            cumulative_distance: 65,
            checkpoints: vec![
                Route { to: "B".to_string(), distance: 10 },
                Route { to: "C".to_string(), distance: 20 },
                Route { to: "D".to_string(), distance: 30 },
            ],
        })
    );
}

#[test]
fn calculate_neighbour_relaxes_only_nearer_ways() {
    let table = vec![
        Destination {
            from: "A".to_string(),
            to: "A".to_string(),
            distance: 0,
            cumulative_distance: 0,
            checkpoints: vec![],
        },
        Destination {
            from: "A".to_string(),
            to: "B".to_string(),
            distance: 40,
            cumulative_distance: 40,
            checkpoints: vec![],
        },
        Destination {
            from: "A".to_string(),
            to: "C".to_string(),
            distance: 10,
            cumulative_distance: 10,
            checkpoints: vec![],
        },
    ];
    let nearer = Graph::calculate_neighbour(
        Route { to: "B".to_string(), distance: 20 },
        "A".to_string(),
        "C".to_string(),
        10,
        table.clone(),
    );
    assert_eq!(
        nearer,
        Some(Destination {
            from: "A".to_string(),
            to: "B".to_string(),
            distance: 20,
            cumulative_distance: 30,
            checkpoints: vec![Route { to: "C".to_string(), distance: 10 }],
        })
    );
    let farther = Graph::calculate_neighbour(
        Route { to: "C".to_string(), distance: 20 },
        "A".to_string(),
        "B".to_string(),
        40,
        table.clone(),
    );
    assert_eq!(farther, None);
    let unknown = Graph::calculate_neighbour(
        Route { to: "D".to_string(), distance: 5 },
        "A".to_string(),
        "A".to_string(),
        0,
        table.clone(),
    );
    assert_eq!(
        unknown,
        Some(Destination {
            from: "A".to_string(),
            to: "D".to_string(),
            distance: 5,
            cumulative_distance: 5,
            checkpoints: vec![],
        })
    );
}

fn checkpoint_sum(destination: &Destination) -> i32 {
    let mut sum = destination.distance;
    for checkpoint in &destination.checkpoints {
        sum += checkpoint.distance;
    }
    sum
}

#[test]
fn cumulative_distance_is_the_sum_of_the_legs() {
    let mut graph = sample_graph();
    for station in ["A", "B", "C", "D"] {
        let destination = graph
            .get_destination("A".to_string(), station.to_string())
            .unwrap();
        assert_eq!(destination.cumulative_distance, checkpoint_sum(&destination));
    }
    let mut line = Graph::new();
    line.add_edge("S".to_string(), "a".to_string(), 1);
    line.add_edge("a".to_string(), "b".to_string(), 2);
    line.add_edge("b".to_string(), "c".to_string(), 4);
    line.add_edge("c".to_string(), "d".to_string(), 8);
    line.add_edge("d".to_string(), "v".to_string(), 16);
    let far = line
        .get_destination("S".to_string(), "v".to_string())
        .unwrap();
    assert_eq!(far.checkpoints.len(), 4);
    assert_eq!(far.cumulative_distance, 31);
    assert_eq!(far.cumulative_distance, checkpoint_sum(&far));
}

#[test]
fn each_checkpoint_carries_the_leg_that_arrives_at_it() {
    let mut graph = Graph::new();
    graph.add_edge("A".to_string(), "B".to_string(), 10);
    graph.add_edge("B".to_string(), "C".to_string(), 20);
    graph.add_edge("C".to_string(), "D".to_string(), 30);
    graph.add_edge("D".to_string(), "E".to_string(), 5);
    assert_eq!(
        graph.get_destination("A".to_string(), "E".to_string()),
        Ok(Destination {
            from: "A".to_string(),
            to: "E".to_string(),
            distance: 5,
            cumulative_distance: 65,
            checkpoints: vec![
                Route { to: "B".to_string(), distance: 10 },
                Route { to: "C".to_string(), distance: 20 },
                Route { to: "D".to_string(), distance: 30 },
            ],
        })
    );
}

#[test]
fn the_way_to_the_start_has_no_length() {
    let mut graph = Graph::new();
    graph.add_edge("A".to_string(), "B".to_string(), 0);
    graph.add_edge("B".to_string(), "C".to_string(), 0);
    graph.add_edge("C".to_string(), "A".to_string(), 0);
    assert_eq!(
        graph.get_destination("A".to_string(), "A".to_string()),
        Ok(Destination {
            from: "A".to_string(),
            to: "A".to_string(),
            distance: 0,
            cumulative_distance: 0,
            checkpoints: vec![],
        })
    );
    let table = graph.dijkstra("A".to_string());
    for record in &table {
        let mut stations = vec!["A".to_string()];
        for checkpoint in &record.checkpoints {
            stations.push(checkpoint.to.clone());
        }
        if record.to != "A" {
            stations.push(record.to.clone());
        }
        for (i, station) in stations.iter().enumerate() {
            assert!(!stations[..i].contains(station));
        }
    }
}
