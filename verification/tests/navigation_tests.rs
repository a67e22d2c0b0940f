use train_planner::input::Input;
use train_planner::movement::Movement;
use train_planner::navigation::Navigation;

#[test]
fn test_basic_navigation() {
    let mut navigation = Navigation::new(Input {
        edges: vec![
            ("E1".to_string(), "A".to_string(), "B".to_string(), 30),
            ("E2".to_string(), "B".to_string(), "C".to_string(), 10),
        ],
        packages: vec![("K1".to_string(), 5, "A".to_string(), "C".to_string())],
        trains: vec![("Q1".to_string(), 6, "B".to_string())],
    });
    let movements = navigation
        .calculate(
            navigation.trains.clone(),
            navigation.packages.clone(),
            vec![],
        )
        .unwrap();
    assert_eq!(
        movements,
        vec![
            Movement {
                start_time: 0,
                end_time: 30,
                from: "B".to_string(),
                to: "A".to_string(),
                train: "Q1".to_string(),
                packages_picked_up: vec![],
                packages_delivered: vec![],
            },
            Movement {
                start_time: 30,
                end_time: 60,
                from: "A".to_string(),
                to: "B".to_string(),
                train: "Q1".to_string(),
                packages_picked_up: vec!["K1".to_string()],
                packages_delivered: vec![],
            },
            Movement {
                start_time: 60,
                end_time: 70,
                from: "B".to_string(),
                to: "C".to_string(),
                train: "Q1".to_string(),
                packages_picked_up: vec![],
                packages_delivered: vec!["K1".to_string()],
            }
        ]
    );
}

#[test]
fn test_delivering_package_using_multiple_trains_in_parallel() {
    let mut navigation = Navigation::new(Input {
        edges: vec![
            ("E1".to_string(), "A".to_string(), "X".to_string(), 10),
            ("E2".to_string(), "B".to_string(), "X".to_string(), 10),
            ("E3".to_string(), "C".to_string(), "X".to_string(), 10),
            ("E4".to_string(), "D".to_string(), "X".to_string(), 10),
            ("E5".to_string(), "E".to_string(), "X".to_string(), 10),
            ("E6".to_string(), "F".to_string(), "X".to_string(), 10),
        ],
        packages: vec![
            ("K1".to_string(), 5, "X".to_string(), "D".to_string()),
            ("K2".to_string(), 5, "X".to_string(), "E".to_string()),
            ("K3".to_string(), 5, "X".to_string(), "F".to_string()),
        ],
        trains: vec![
            ("Q1".to_string(), 15, "A".to_string()),
            ("Q2".to_string(), 15, "B".to_string()),
            ("Q3".to_string(), 15, "C".to_string()),
        ],
    });
    let movements = navigation
        .calculate(
            navigation.trains.clone(),
            navigation.packages.clone(),
            vec![],
        )
        .unwrap();
    assert_eq!(
        movements,
        vec![
            Movement {
                start_time: 0,
                end_time: 10,
                from: "A".to_string(),
                to: "X".to_string(),
                train: "Q1".to_string(),
                packages_picked_up: [].to_vec(),
                packages_delivered: [].to_vec(),
            },
            Movement {
                start_time: 10,
                end_time: 20,
                from: "X".to_string(),
                to: "D".to_string(),
                train: "Q1".to_string(),
                packages_picked_up: ["K1".to_string()].to_vec(),
                packages_delivered: ["K1".to_string()].to_vec(),
            },
            Movement {
                start_time: 0,
                end_time: 10,
                from: "B".to_string(),
                to: "X".to_string(),
                train: "Q2".to_string(),
                packages_picked_up: [].to_vec(),
                packages_delivered: [].to_vec(),
            },
            Movement {
                start_time: 10,
                end_time: 20,
                from: "X".to_string(),
                to: "E".to_string(),
                train: "Q2".to_string(),
                packages_picked_up: ["K2".to_string()].to_vec(),
                packages_delivered: ["K2".to_string()].to_vec(),
            },
            Movement {
                start_time: 0,
                end_time: 10,
                from: "C".to_string(),
                to: "X".to_string(),
                train: "Q3".to_string(),
                packages_picked_up: [].to_vec(),
                packages_delivered: [].to_vec(),
            },
            Movement {
                start_time: 10,
                end_time: 20,
                from: "X".to_string(),
                to: "F".to_string(),
                train: "Q3".to_string(),
                packages_picked_up: ["K3".to_string()].to_vec(),
                packages_delivered: ["K3".to_string()].to_vec(),
            },
        ],
    );
}
