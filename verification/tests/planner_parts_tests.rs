use train_planner::candidates::Candidate;
use train_planner::destination::Destination;
use train_planner::error::PlanError;
use train_planner::movement::Movement;
use train_planner::navigation::Navigation;
use train_planner::package::Package;
use train_planner::route::Route;
use train_planner::train::Train;

fn package(name: &str, weight: i32, from: &str, to: &str) -> Package {
    Package::new(name.to_string(), weight, from.to_string(), to.to_string())
}

fn train(name: &str, capacity: i32, start: &str) -> Train {
    Train::new(name.to_string(), capacity, start.to_string())
}

fn names(list: &[&str]) -> Vec<String> {
    list.iter().map(|name| name.to_string()).collect()
}

fn movement(
    start_time: i32,
    end_time: i32,
    from: &str,
    to: &str,
    train: &str,
    picked: &[&str],
    delivered: &[&str],
) -> Movement {
    Movement {
        start_time,
        end_time,
        from: from.to_string(),
        to: to.to_string(),
        train: train.to_string(),
        packages_picked_up: names(picked),
        packages_delivered: names(delivered),
    }
}

#[test]
fn new_train_and_package_start_untouched() {
    let t = train("Q1", 6, "B");
    assert_eq!(t.name, "Q1");
    assert_eq!(t.start, "B");
    assert_eq!(t.current_location, "B");
    assert_eq!(t.capacity, 6);
    assert_eq!(t.total_distance, 0);
    assert!(t.packages_to_pick_up.is_empty());
    assert!(t.packages_picked_up.is_empty());
    assert!(t.packages_delivered.is_empty());
    let p = package("K1", 5, "A", "C");
    assert_eq!(p.name, "K1");
    assert_eq!(p.from, "A");
    assert_eq!(p.to, "C");
    assert_eq!(p.weight, 5);
    assert_eq!(p.to_be_picked_up_by, "");
    assert_eq!(p.picked_up_by, "");
    assert_eq!(p.delivered_by, "");
    let d = Destination::new();
    assert_eq!(d.from, "");
    assert_eq!(d.to, "");
    assert_eq!(d.distance, 0);
    assert_eq!(d.cumulative_distance, 0);
    assert!(d.checkpoints.is_empty());
}

#[test]
fn cache_key_of_a_fresh_state() {
    let trains = vec![train("Q2", 5, "B"), train("Q1", 5, "A")];
    let packages = vec![package("K1", 1, "A", "B")];
    assert_eq!(
        Navigation::get_cache_key(trains.clone(), packages.clone()),
        "train_locations,Q1:A,Q2:B;packages_to_be_picked_up;packages_picked_up;packages_delivered"
    );
}

#[test]
fn cache_key_lists_each_stage_sorted_by_name() {
    let trains = vec![train("Q2", 5, "B"), train("Q1", 5, "A")];
    let mut k2 = package("K2", 1, "A", "B");
    k2.to_be_picked_up_by = "Q1".to_string();
    k2.picked_up_by = "Q1".to_string();
    let mut k1 = package("K1", 1, "A", "B");
    k1.to_be_picked_up_by = "Q2".to_string();
    let mut k0 = package("K0", 1, "A", "B");
    k0.to_be_picked_up_by = "Q2".to_string();
    k0.picked_up_by = "Q2".to_string();
    k0.delivered_by = "Q2".to_string();
    let packages = vec![k2, k1, k0, package("K3", 1, "A", "B")];
    assert_eq!(
        Navigation::get_cache_key(trains.clone(), packages.clone()),
        "train_locations,Q1:A,Q2:B;packages_to_be_picked_up,K0:Q2,K1:Q2,K2:Q1;packages_picked_up,K0:Q2,K2:Q1;packages_delivered,K0:Q2"
    );
}

#[test]
fn cache_key_ignores_distance_and_history() {
    let mut moved = train("Q1", 5, "A");
    moved.total_distance = 70;
    moved.start = "Z".to_string();
    let packages = vec![package("K1", 1, "A", "B")];
    assert_eq!(
        Navigation::get_cache_key(vec![moved], packages.clone()),
        Navigation::get_cache_key(vec![train("Q1", 5, "A")], packages.clone())
    );
}

#[test]
fn capable_trains_have_room_left() {
    let mut busy = train("Q1", 10, "A");
    busy.packages_to_pick_up = names(&["K1"]);
    busy.packages_picked_up = names(&["K2"]);
    let roomy = train("Q2", 10, "A");
    let exact = train("Q3", 4, "A");
    let small = train("Q4", 3, "A");
    let packages = vec![
        package("K1", 3, "A", "B"),
        package("K2", 4, "A", "B"),
        package("K3", 4, "A", "B"),
    ];
    let capable = Navigation::get_capable_trains(
        packages[2].clone(),
        packages.clone(),
        vec![busy, roomy, exact, small],
    )
    .unwrap();
    let found: Vec<String> = capable.iter().map(|t| t.name.clone()).collect();
    assert_eq!(found, names(&["Q2", "Q3"]));
}

#[test]
fn capable_trains_miss_an_unknown_package() {
    let mut odd = train("Q1", 10, "A");
    odd.packages_picked_up = names(&["ghost"]);
    let packages = vec![package("K1", 3, "A", "B")];
    assert_eq!(
        Navigation::get_capable_trains(
            packages[0].clone(),
            packages.clone(),
            vec![train("Q0", 1, "A"), odd]
        )
        .err(),
        Some(PlanError::LookupMiss)
    );
}

#[test]
fn packages_to_deliver_are_those_bound_for_the_station() {
    let mut t = train("Q1", 10, "A");
    t.packages_to_pick_up = names(&["K3", "K1"]);
    t.packages_picked_up = names(&["K2", "K4"]);
    t.packages_delivered = names(&["K5"]);
    let packages = vec![
        package("K1", 1, "A", "B"),
        package("K2", 1, "A", "C"),
        package("K3", 1, "A", "C"),
        package("K4", 1, "A", "B"),
        package("K5", 1, "A", "C"),
    ];
    assert_eq!(
        Navigation::get_packages_to_deliver(t.clone(), packages.clone(), "C".to_string()),
        Ok(names(&["K3", "K2"]))
    );
    assert_eq!(
        Navigation::get_packages_to_deliver(t.clone(), packages.clone(), "Z".to_string()),
        Ok(names(&[]))
    );
    t.packages_picked_up.push("ghost".to_string());
    assert_eq!(
        Navigation::get_packages_to_deliver(t.clone(), packages.clone(), "C".to_string()),
        Err(PlanError::LookupMiss)
    );
}

fn way_to_d() -> Destination {
    Destination {
        from: "A".to_string(),
        to: "D".to_string(),
        distance: 10,
        cumulative_distance: 40,
        checkpoints: vec![
            Route { to: "C".to_string(), distance: 10 },
            Route { to: "B".to_string(), distance: 20 },
        ],
    }
}

#[test]
fn move_train_emits_one_movement_for_each_leg() {
    let mut t = train("Q1", 10, "A");
    t.packages_to_pick_up = names(&["K1"]);
    t.packages_picked_up = names(&["K2"]);
    let packages = vec![
        package("K1", 1, "A", "B"),
        package("K2", 1, "X", "D"),
        package("K3", 1, "A", "B"),
    ];
    let before = vec![
        movement(0, 5, "Z", "A", "Q1", &[], &[]),
        movement(0, 99, "Y", "A", "Q2", &[], &[]),
    ];
    let (after, picked, delivered) =
        Navigation::move_train(t.clone(), way_to_d(), packages.clone(), before.clone()).unwrap();
    assert_eq!(
        after,
        vec![
            movement(0, 5, "Z", "A", "Q1", &[], &[]),
            movement(0, 99, "Y", "A", "Q2", &[], &[]),
            movement(5, 15, "A", "C", "Q1", &["K1"], &[]),
            movement(15, 35, "C", "B", "Q1", &[], &["K1"]),
            movement(35, 45, "B", "D", "Q1", &[], &["K2"]),
        ]
    );
    assert_eq!(picked, names(&["K1"]));
    assert_eq!(delivered, names(&["K1", "K2"]));
    assert_eq!(t.current_location, "A");
    assert_eq!(t.packages_to_pick_up, names(&["K1"]));
}

#[test]
fn move_train_without_checkpoints_starts_at_zero() {
    let t = train("Q1", 10, "A");
    let direct = Destination {
        from: "A".to_string(),
        to: "B".to_string(),
        distance: 7,
        cumulative_distance: 7,
        checkpoints: vec![],
    };
    let (after, picked, delivered) =
        Navigation::move_train(t, direct, vec![], vec![]).unwrap();
    assert_eq!(after, vec![movement(0, 7, "A", "B", "Q1", &[], &[])]);
    assert!(picked.is_empty());
    assert!(delivered.is_empty());
}

#[test]
fn move_train_stays_where_the_way_has_no_length() {
    let mut t = train("Q1", 10, "A");
    t.packages_to_pick_up = names(&["K1"]);
    let here = Destination {
        from: "A".to_string(),
        to: "A".to_string(),
        distance: 0,
        cumulative_distance: 0,
        checkpoints: vec![],
    };
    let before = vec![movement(0, 5, "Z", "A", "Q1", &[], &[])];
    let (after, picked, delivered) =
        Navigation::move_train(t, here, vec![package("K1", 1, "A", "A")], before.clone()).unwrap();
    assert_eq!(after, before);
    assert!(picked.is_empty());
    assert!(delivered.is_empty());
}

#[test]
fn move_train_reports_a_time_out_of_range() {
    let t = train("Q1", 10, "A");
    let before = vec![movement(0, i32::MAX - 39, "Z", "A", "Q1", &[], &[])];
    assert_eq!(
        Navigation::move_train(t.clone(), way_to_d(), vec![], before).err(),
        Some(PlanError::Overflow)
    );
    let just = vec![movement(0, i32::MAX - 40, "Z", "A", "Q1", &[], &[])];
    let (after, _, _) = Navigation::move_train(t, way_to_d(), vec![], just).unwrap();
    assert_eq!(after[3].end_time, i32::MAX);
}

#[test]
fn move_train_misses_an_unknown_package() {
    let mut t = train("Q1", 10, "A");
    t.packages_to_pick_up = names(&["ghost"]);
    assert_eq!(
        Navigation::move_train(t, way_to_d(), vec![], vec![]).err(),
        Some(PlanError::LookupMiss)
    );
}

#[test]
fn longest_distance_is_the_latest_end() {
    assert_eq!(Navigation::get_longest_distance_in_movements(vec![]), 0);
    let plan = vec![
        movement(0, 30, "B", "A", "Q1", &[], &[]),
        movement(30, 70, "A", "B", "Q1", &[], &[]),
        movement(0, 60, "B", "C", "Q2", &[], &[]),
    ];
    assert_eq!(Navigation::get_longest_distance_in_movements(plan), 70);
    let early = vec![movement(-20, -10, "B", "A", "Q1", &[], &[])];
    assert_eq!(Navigation::get_longest_distance_in_movements(early), 0);
}

#[test]
fn number_of_trains_counts_each_train_once() {
    assert_eq!(Navigation::get_number_of_trains(vec![]), 0);
    let plan = vec![
        movement(0, 30, "B", "A", "Q1", &[], &[]),
        movement(0, 60, "B", "C", "Q2", &[], &[]),
        movement(30, 70, "A", "B", "Q1", &[], &[]),
        movement(60, 70, "C", "B", "Q2", &[], &[]),
        movement(0, 1, "C", "B", "Q3", &[], &[]),
    ];
    assert_eq!(Navigation::get_number_of_trains(plan), 3);
}

#[test]
fn candidates_put_commitments_first() {
    let mut q2 = train("Q2", 10, "A");
    q2.packages_to_pick_up = names(&["K4"]);
    q2.packages_picked_up = names(&["K3"]);
    let q1 = train("Q1", 2, "A");
    let mut k3 = package("K3", 4, "A", "B");
    k3.to_be_picked_up_by = "Q2".to_string();
    k3.picked_up_by = "Q2".to_string();
    let mut k4 = package("K4", 4, "A", "B");
    k4.to_be_picked_up_by = "Q2".to_string();
    let packages = vec![package("K2", 2, "A", "B"), k3, k4, package("K1", 1, "A", "B")];
    let queue = Navigation::candidates(&vec![q2, q1], &packages).unwrap();
    let listed: Vec<(String, String, bool)> = queue
        .iter()
        .map(|c: &Candidate| (c.train.clone(), c.package.clone(), c.is_pickup))
        .collect();
    assert_eq!(
        listed,
        vec![
            ("Q2".to_string(), "K3".to_string(), false),
            ("Q2".to_string(), "K4".to_string(), false),
            ("Q1".to_string(), "K1".to_string(), true),
            ("Q1".to_string(), "K2".to_string(), true),
            ("Q2".to_string(), "K1".to_string(), true),
            ("Q2".to_string(), "K2".to_string(), true),
        ]
    );
}

#[test]
fn candidates_miss_an_unknown_package_only_while_one_is_free() {
    let mut odd = train("Q1", 10, "A");
    odd.packages_to_pick_up = names(&["ghost"]);
    let free = vec![package("K1", 1, "A", "B")];
    assert_eq!(
        Navigation::candidates(&vec![odd.clone()], &free).err(),
        Some(PlanError::LookupMiss)
    );
    let queue = Navigation::candidates(&vec![odd], &vec![]).unwrap();
    assert_eq!(queue.len(), 1);
    assert_eq!(queue[0].package, "ghost");
    assert!(!queue[0].is_pickup);
}
