use train_planner::error::PlanError;
use train_planner::input::Input;
use train_planner::movement::Movement;
use train_planner::navigation::Navigation;
use train_planner::package::Package;
use train_planner::train::Train;

fn edge(name: &str, from: &str, to: &str, distance: i32) -> (String, String, String, i32) {
    (name.to_string(), from.to_string(), to.to_string(), distance)
}

fn parcel(name: &str, weight: i32, from: &str, to: &str) -> (String, i32, String, String) {
    (name.to_string(), weight, from.to_string(), to.to_string())
}

fn engine(name: &str, capacity: i32, start: &str) -> (String, i32, String) {
    (name.to_string(), capacity, start.to_string())
}

fn plan(navigation: &mut Navigation) -> Result<Vec<Movement>, PlanError> {
    let trains = navigation.trains.clone();
    let packages = navigation.packages.clone();
    navigation.calculate(trains, packages, vec![])
}

fn single_pickup() -> Navigation {
    Navigation::new(Input {
        edges: vec![edge("E1", "A", "B", 30), edge("E2", "B", "C", 10)],
        packages: vec![parcel("K1", 5, "A", "C")],
        trains: vec![engine("Q1", 6, "B")],
    })
}

#[test]
fn new_files_trains_and_packages_by_name() {
    let navigation = Navigation::new(Input {
        edges: vec![edge("E1", "A", "B", 30)],
        packages: vec![parcel("K1", 5, "A", "B"), parcel("K2", 1, "B", "A"), parcel("K1", 7, "B", "A")],
        trains: vec![engine("Q1", 6, "B"), engine("Q1", 9, "A")],
    });
    assert_eq!(navigation.trains.len(), 1);
    assert_eq!(navigation.trains[0].capacity, 9);
    assert_eq!(navigation.trains[0].current_location, "A");
    assert_eq!(navigation.packages.len(), 2);
    assert_eq!(navigation.packages[0].name, "K1");
    assert_eq!(navigation.packages[0].weight, 7);
    assert_eq!(navigation.packages[1].name, "K2");
    assert_eq!(navigation.graph.adj_list.len(), 2);
    assert!(navigation.cache.is_empty());
    assert!(navigation.graph.cache.is_empty());
}

#[test]
fn nothing_to_deliver_is_the_timeline_as_it_is() {
    let mut navigation = Navigation::new(Input {
        edges: vec![edge("E1", "A", "B", 30)],
        packages: vec![],
        trains: vec![engine("Q1", 6, "B")],
    });
    assert_eq!(plan(&mut navigation), Ok(vec![]));
    assert!(navigation.cache.is_empty());
}

#[test]
fn replanning_gives_the_same_plan() {
    let mut navigation = single_pickup();
    let first = plan(&mut navigation).unwrap();
    let remembered = navigation.cache.len();
    let second = plan(&mut navigation).unwrap();
    assert_eq!(first, second);
    assert_eq!(navigation.cache.len(), remembered);
    let mut fresh = single_pickup();
    assert_eq!(plan(&mut fresh).unwrap(), first);
}

#[test]
fn a_remembered_plan_is_given_whatever_the_timeline() {
    let mut navigation = single_pickup();
    let first = plan(&mut navigation).unwrap();
    let trains = navigation.trains.clone();
    let packages = navigation.packages.clone();
    let other_history = vec![Movement {
        start_time: 0,
        end_time: 500,
        from: "C".to_string(),
        to: "B".to_string(),
        train: "Q1".to_string(),
        packages_picked_up: vec![],
        packages_delivered: vec![],
    }];
    assert_eq!(
        navigation.calculate(trains, packages, other_history),
        Ok(first)
    );
}

#[test]
fn a_package_too_heavy_has_no_solution() {
    let mut navigation = Navigation::new(Input {
        edges: vec![edge("E1", "A", "B", 30)],
        packages: vec![parcel("K1", 7, "A", "B")],
        trains: vec![engine("Q1", 6, "B")],
    });
    assert_eq!(plan(&mut navigation), Err(PlanError::NoSolution));
}

#[test]
fn a_package_out_of_reach_is_an_error() {
    let mut navigation = Navigation::new(Input {
        edges: vec![edge("E1", "A", "B", 30), edge("E2", "Y", "Z", 30)],
        packages: vec![parcel("K1", 5, "Z", "B")],
        trains: vec![engine("Q1", 6, "A")],
    });
    assert_eq!(plan(&mut navigation), Err(PlanError::Unreachable));
    let mut nowhere = Navigation::new(Input {
        edges: vec![edge("E1", "A", "B", 30)],
        packages: vec![parcel("K1", 5, "A", "X")],
        trains: vec![engine("Q1", 6, "A")],
    });
    assert_eq!(plan(&mut nowhere), Err(PlanError::Unreachable));
}

#[test]
fn an_unknown_package_on_a_train_is_a_lookup_miss() {
    let mut navigation = single_pickup();
    let mut trains = navigation.trains.clone();
    trains[0].packages_picked_up.push("ghost".to_string());
    let packages = navigation.packages.clone();
    assert_eq!(
        navigation.calculate(trains, packages, vec![]),
        Err(PlanError::LookupMiss)
    );
}

#[test]
fn a_plan_longer_than_an_i32_is_an_overflow() {
    let mut navigation = Navigation::new(Input {
        edges: vec![edge("E1", "A", "B", 2_000_000_000)],
        packages: vec![parcel("K1", 1, "A", "B"), parcel("K2", 1, "B", "A")],
        trains: vec![engine("Q1", 6, "A")],
    });
    assert_eq!(plan(&mut navigation), Err(PlanError::Overflow));
}

#[test]
fn a_step_that_changes_nothing_exhausts_the_budget() {
    let mut navigation = Navigation::new(Input {
        edges: vec![edge("E1", "A", "B", 30)],
        packages: vec![parcel("K1", 1, "A", "A")],
        trains: vec![engine("Q1", 6, "A")],
    });
    assert_eq!(plan(&mut navigation), Err(PlanError::BudgetExhausted));
}

#[test]
fn a_search_without_budget_stops_at_the_first_open_action() {
    let mut navigation = single_pickup();
    let trains = navigation.trains.clone();
    let packages = navigation.packages.clone();
    assert_eq!(
        navigation.search(trains, packages, vec![], 0),
        Err(PlanError::BudgetExhausted)
    );
    let trains = navigation.trains.clone();
    let packages = navigation.packages.clone();
    assert!(navigation.search(trains, packages, vec![], 3).is_ok());
}

fn weight_of(packages: &Vec<Package>, name: &str) -> i32 {
    packages.iter().find(|p| p.name == name).unwrap().weight
}

fn check_plan(plan: &Vec<Movement>, trains: &Vec<Train>, packages: &Vec<Package>) {
    for package in packages {
        let giving: Vec<&Movement> = plan
            .iter()
            .filter(|m| m.packages_delivered.contains(&package.name))
            .collect();
        assert_eq!(giving.len(), 1);
        assert_eq!(giving[0].to, package.to);
        let taking: Vec<&Movement> = plan
            .iter()
            .filter(|m| m.packages_picked_up.contains(&package.name))
            .collect();
        assert_eq!(taking.len(), 1);
        assert_eq!(taking[0].from, package.from);
        assert_eq!(taking[0].train, giving[0].train);
        assert!(taking[0].start_time <= giving[0].start_time);
    }
    for movement in plan {
        for name in movement
            .packages_picked_up
            .iter()
            .chain(movement.packages_delivered.iter())
        {
            assert!(packages.iter().any(|package| &package.name == name));
        }
    }
    for train in trains {
        let own: Vec<&Movement> = plan.iter().filter(|m| m.train == train.name).collect();
        let mut load = 0;
        for (i, movement) in own.iter().enumerate() {
            assert!(movement.start_time <= movement.end_time);
            if i > 0 {
                assert_eq!(movement.start_time, own[i - 1].end_time);
                assert_eq!(movement.from, own[i - 1].to);
            } else {
                assert_eq!(movement.start_time, 0);
                assert_eq!(movement.from, train.start);
            }
            for name in &movement.packages_picked_up {
                load += weight_of(packages, name);
            }
            assert!(load <= train.capacity);
            for name in &movement.packages_delivered {
                load -= weight_of(packages, name);
            }
        }
        assert_eq!(load, 0);
    }
}

#[test]
fn capacity_forces_two_trips() {
    let mut navigation = Navigation::new(Input {
        edges: vec![edge("E1", "A", "B", 10)],
        packages: vec![parcel("K1", 10, "A", "B"), parcel("K2", 10, "A", "B")],
        trains: vec![engine("Q1", 10, "A")],
    });
    let found = plan(&mut navigation).unwrap();
    check_plan(&found, &navigation.trains, &navigation.packages);
    assert_eq!(found.len(), 3);
    assert_eq!(Navigation::get_longest_distance_in_movements(found.clone()), 30);
    for movement in &found {
        assert!(movement.packages_picked_up.len() <= 1);
    }
}

#[test]
fn plans_found_are_plans() {
    let mut single = single_pickup();
    let found = plan(&mut single).unwrap();
    check_plan(&found, &single.trains, &single.packages);
    let mut parallel = Navigation::new(Input {
        edges: vec![
            edge("E1", "A", "X", 10),
            edge("E2", "B", "X", 10),
            edge("E3", "C", "X", 10),
            edge("E4", "D", "X", 10),
            edge("E5", "E", "X", 10),
            edge("E6", "F", "X", 10),
        ],
        packages: vec![
            parcel("K1", 5, "X", "D"),
            parcel("K2", 5, "X", "E"),
            parcel("K3", 5, "X", "F"),
        ],
        trains: vec![engine("Q1", 15, "A"), engine("Q2", 15, "B"), engine("Q3", 15, "C")],
    });
    let found = plan(&mut parallel).unwrap();
    check_plan(&found, &parallel.trains, &parallel.packages);
    assert_eq!(Navigation::get_longest_distance_in_movements(found.clone()), 20);
    assert_eq!(Navigation::get_number_of_trains(found.clone()), 3);
}

#[test]
fn shared_trip_delivers_on_the_way() {
    let mut navigation = Navigation::new(Input {
        edges: vec![edge("E1", "A", "B", 10), edge("E2", "B", "C", 10)],
        packages: vec![parcel("K1", 2, "A", "B"), parcel("K2", 2, "A", "C")],
        trains: vec![engine("Q1", 5, "A")],
    });
    let found = plan(&mut navigation).unwrap();
    check_plan(&found, &navigation.trains, &navigation.packages);
    assert_eq!(Navigation::get_longest_distance_in_movements(found.clone()), 20);
}

#[test]
fn every_error_says_what_went_wrong() {
    assert_eq!(PlanError::Unreachable.message(), "Destination not found");
    assert_eq!(PlanError::LookupMiss.message(), "Train or package not found");
    assert_eq!(PlanError::NoSolution.message(), "No solution found");
    assert_eq!(
        PlanError::Overflow.message(),
        "A time or a distance is out of range"
    );
    assert_eq!(
        PlanError::BudgetExhausted.message(),
        "The search went deeper than its budget allows"
    );
}

fn leg(start_time: i32, end_time: i32, from: &str, to: &str, picked: &[&str], delivered: &[&str]) -> Movement {
    Movement {
        start_time,
        end_time,
        from: from.to_string(),
        to: to.to_string(),
        train: "Q1".to_string(),
        packages_picked_up: picked.iter().map(|name| name.to_string()).collect(),
        packages_delivered: delivered.iter().map(|name| name.to_string()).collect(),
    }
}

#[test]
fn movements_last_as_long_as_their_edges() {
    let mut navigation = Navigation::new(Input {
        edges: vec![
            edge("E1", "A", "B", 10),
            edge("E2", "B", "C", 20),
            edge("E3", "C", "D", 30),
            edge("E4", "D", "E", 5),
        ],
        packages: vec![parcel("K1", 1, "E", "A")],
        trains: vec![engine("Q1", 5, "A")],
    });
    let found = plan(&mut navigation).unwrap();
    check_plan(&found, &navigation.trains, &navigation.packages);
    assert_eq!(
        found,
        vec![
            leg(0, 10, "A", "B", &[], &[]),
            leg(10, 30, "B", "C", &[], &[]),
            leg(30, 60, "C", "D", &[], &[]),
            leg(60, 65, "D", "E", &[], &[]),
            leg(65, 70, "E", "D", &["K1"], &[]),
            leg(70, 100, "D", "C", &[], &[]),
            leg(100, 120, "C", "B", &[], &[]),
            leg(120, 130, "B", "A", &[], &["K1"]),
        ]
    );
    for movement in &found {
        let joined = navigation.graph.adj_list.iter().any(|station| {
            station.station == movement.from
                && station.routes.iter().any(|route| {
                    route.to == movement.to
                        && route.distance == movement.end_time - movement.start_time
                })
        });
        assert!(joined);
        assert!(movement.start_time >= 0);
    }
}

#[test]
fn a_way_without_length_leaves_the_train_where_it_is() {
    let mut navigation = Navigation::new(Input {
        edges: vec![edge("E1", "X", "Y", 0), edge("E2", "Y", "Z", 5)],
        packages: vec![parcel("K1", 1, "Y", "Z")],
        trains: vec![engine("Q1", 5, "X")],
    });
    let found = plan(&mut navigation).unwrap();
    assert_eq!(
        found,
        vec![
            leg(0, 0, "X", "Y", &["K1"], &[]),
            leg(0, 5, "Y", "Z", &[], &["K1"]),
        ]
    );
}
