use train_planner::movement::Movement;
use train_planner::names::{precedes, same_name};
use train_planner::package::Package;
use train_planner::sorting::sort;
use train_planner::table::{find, put};

#[test]
fn names_sort_as_strings_do() {
    let samples = ["", "A", "AB", "B", "a", "Q1", "Q10", "Q2", "z", "é", "日本", "zz"];
    for a in samples {
        for b in samples {
            assert_eq!(precedes(a, b), a < b);
            assert_eq!(same_name(a, b), a == b);
        }
    }
}

fn movement(train: &str, start_time: i32, from: &str) -> Movement {
    Movement {
        start_time,
        end_time: start_time,
        from: from.to_string(),
        to: "X".to_string(),
        train: train.to_string(),
        packages_picked_up: vec![],
        packages_delivered: vec![],
    }
}

#[test]
fn sort_keeps_the_order_of_equals() {
    let plan = vec![
        movement("Q2", 5, "a"),
        movement("Q1", 7, "b"),
        movement("Q2", 5, "c"),
        movement("Q1", 0, "d"),
        movement("Q2", 1, "e"),
        movement("Q1", 7, "f"),
    ];
    let sorted = sort(plan);
    let order: Vec<&str> = sorted.iter().map(|m| m.from.as_str()).collect();
    assert_eq!(order, vec!["d", "b", "f", "e", "a", "c"]);
    assert!(sort(Vec::<Movement>::new()).is_empty());
}

#[test]
fn tables_file_by_name() {
    let mut table: Vec<Package> = vec![];
    let package = |name: &str, weight: i32| {
        Package::new(name.to_string(), weight, "A".to_string(), "B".to_string())
    };
    assert_eq!(find(&table, "K1"), None);
    assert_eq!(put(&mut table, package("K1", 1)), 0);
    assert_eq!(put(&mut table, package("K2", 2)), 1);
    assert_eq!(put(&mut table, package("K1", 3)), 0);
    assert_eq!(table.len(), 2);
    assert_eq!(table[0].weight, 3);
    assert_eq!(find(&table, "K2"), Some(1));
    assert_eq!(find(&table, "K3"), None);
}
