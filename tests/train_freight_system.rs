use train_freight_system::train_freight_system::error::ErrorKind;
use train_freight_system::train_freight_system::package::Status;
use train_freight_system::train_freight_system::{RunEnd, TrainFreightSystem};
use train_freight_system::util::kilogram::Kilogram;
use train_freight_system::util::minute::Minute;

fn three_stations() -> TrainFreightSystem {
    let mut system = TrainFreightSystem::default();
    system.add_node("A").expect("can't add node");
    system.add_node("B").expect("can't add node");
    system.add_node("C").expect("can't add node");
    system.add_edge("E1", "A", "B", Minute(30)).expect("can't add edge");
    system.add_edge("E2", "C", "B", Minute(10)).expect("can't add edge");
    system
}

#[test]
fn test_system() {
    let mut system = TrainFreightSystem::default();
    system.add_node("A").expect("can't add node");
    system.add_node("B").expect("can't add node");
    system.add_node("C").expect("can't add node");
    system.add_edge("E1", "A", "B", Minute(30)).expect("can't add edge");
    system.add_edge("E2", "C", "B", Minute(10)).expect("can't add edge");
    system.add_package("K1", Kilogram(5), "A", "C").expect("Can't add package");
    system.add_train("Q1", Kilogram(6), "B").expect("Can't add train");
    let total_travel_time = system.deliver_packages();
    println!("total travel time {:?}", total_travel_time);
    assert_eq!(total_travel_time, Minute(70));

    // Can't transport package
    system.add_package("K2", Kilogram(25), "B", "A").expect("Can't add package");
    let total_travel_time = system.deliver_packages();
    println!("total travel time {:?}", total_travel_time);
    assert_eq!(total_travel_time, Minute(0));

    println!("start");
    system.add_train("Q2", Kilogram(30), "C").expect("Can't add train");
    let total_travel_time = system.deliver_packages();
    println!("total travel time {:?}", total_travel_time);
    assert_eq!(total_travel_time, Minute(40));
}

#[test]
fn heavy_package_is_frozen_then_thawed() {
    let mut system = three_stations();
    system.add_package("K1", Kilogram(5), "A", "C").unwrap();
    system.add_train("Q1", Kilogram(6), "B").unwrap();
    assert_eq!(system.deliver_packages(), Minute(70));
    system.add_package("K2", Kilogram(25), "B", "A").unwrap();
    assert_eq!(system.deliver_packages(), Minute(0));
    assert!(matches!(system.package_handler.packages[1].status, Status::CantBeTransported(_)));
    assert!(!system.package_handler.have_undelivered_packages());
    // A train that can carry it thaws the package as soon as it joins the fleet.
    system.add_train("Q2", Kilogram(30), "C").unwrap();
    assert!(matches!(system.package_handler.packages[1].status, Status::DroppedAt(_, _)));
    assert!(system.package_handler.have_undelivered_packages());
    assert_eq!(system.deliver_packages(), Minute(40));
}

#[test]
fn second_run_at_rest_is_free() {
    let mut system = three_stations();
    system.add_package("K1", Kilogram(5), "A", "C").unwrap();
    system.add_train("Q1", Kilogram(6), "B").unwrap();
    assert_eq!(system.deliver_packages(), Minute(70));
    assert_eq!(system.deliver_packages(), Minute(0));
    assert!(matches!(system.package_handler.packages[0].status, Status::Completed));
}

#[test]
fn load_never_exceeds_capacity() {
    let mut system = three_stations();
    system.add_package("K1", Kilogram(4), "B", "C").unwrap();
    system.add_package("K2", Kilogram(4), "B", "C").unwrap();
    system.add_train("Q1", Kilogram(6), "B").unwrap();
    system.add_train("Q2", Kilogram(5), "B").unwrap();
    let out = system.run_delivery(1000);
    assert_eq!(out.end, RunEnd::AllDelivered);
    assert_eq!(out.total, Minute(10));
    assert_eq!(out.ticks.len(), 1);
    assert_eq!(out.ticks[0].advance, Minute(10));
    let log = &out.ticks[0].trains;
    for train in &system.train_handler.trains {
        assert!(train.load_size.0 <= train.max_capacity.0);
    }
    // One line per train for the one tick, written once the trains have arrived.
    assert_eq!(log.len(), 2);
    assert_eq!(log[0].elapsed, Minute(10));
    assert_eq!(log[0].train, "Q1");
    assert_eq!(log[0].origin, "C");
    assert_eq!(log[0].destination, "");
    assert!(log[0].in_transit.is_empty());
    assert_eq!(log[0].delivered, vec!["K1".to_string()]);
    assert_eq!(log[1].delivered, vec!["K2".to_string()]);
}

#[test]
fn registration_errors() {
    let mut system = three_stations();
    assert_eq!(system.add_node("A").unwrap_err().kind, ErrorKind::DuplicateStation);
    assert_eq!(system.add_edge("E3", "A", "Z", Minute(1)).unwrap_err().kind, ErrorKind::NodeNotFound);
    assert_eq!(system.add_edge("E3", "A", "A", Minute(1)).unwrap_err().kind, ErrorKind::SameStation);
    assert_eq!(system.add_edge("E1", "C", "A", Minute(1)).unwrap_err().kind, ErrorKind::DuplicateEdge);
    // A refused edge leaves no half behind.
    assert_eq!(system.nodes[2].edges.len(), 1);
    assert_eq!(system.add_train("Q1", Kilogram(1), "Z").unwrap_err().kind, ErrorKind::NodeNotFound);
    system.add_train("Q1", Kilogram(1), "A").unwrap();
    assert_eq!(system.add_train("Q1", Kilogram(1), "B").unwrap_err().kind, ErrorKind::DuplicateTrain);
    assert_eq!(system.add_package("K1", Kilogram(1), "A", "Z").unwrap_err().kind, ErrorKind::NodeNotFound);
    system.add_package("K1", Kilogram(1), "A", "B").unwrap();
    assert_eq!(system.add_package("K1", Kilogram(1), "B", "C").unwrap_err().kind, ErrorKind::DuplicatePackage);
}

#[test]
fn package_at_its_destination_is_completed() {
    let mut system = three_stations();
    system.add_package("K1", Kilogram(1), "A", "A").unwrap();
    assert!(matches!(system.package_handler.packages[0].status, Status::Completed));
    assert!(!system.package_handler.have_undelivered_packages());
}

#[test]
fn unreachable_package_is_frozen_instead_of_stalling() {
    let mut system = three_stations();
    system.add_node("D").unwrap();
    system.add_package("K1", Kilogram(1), "A", "D").unwrap();
    system.add_train("Q1", Kilogram(5), "A").unwrap();
    let out = system.run_delivery(10);
    assert_eq!((out.total, out.end), (Minute(0), RunEnd::Stuck));
    assert!(out.ticks.is_empty());
    assert!(matches!(system.package_handler.packages[0].status, Status::CantBeTransported(_)));
}

#[test]
fn largest_train_wins_first_on_ties() {
    let mut system = three_stations();
    system.add_train("Q1", Kilogram(5), "B").unwrap();
    system.add_train("Q2", Kilogram(9), "B").unwrap();
    system.add_train("Q3", Kilogram(9), "B").unwrap();
    let b = system.nodes[1].id.clone();
    let t = system.train_handler.find_largest_capacity_train_in_node(&b).unwrap();
    assert_eq!(t.0, "Q2");
}

#[test]
fn least_time_path_is_symmetric_in_time() {
    let mut system = three_stations();
    system.add_edge("E3", "A", "C", Minute(50)).unwrap();
    // A-B-C takes 40, A-C directly 50.
    let there = system.get_least_time_path_to_move_from_point_a_to_point_b(0, 2);
    let back = system.get_least_time_path_to_move_from_point_a_to_point_b(2, 0);
    assert_eq!(there, vec![0, 1, 2]);
    assert_eq!(back, vec![2, 1, 0]);
    assert_eq!(system.get_travel_time_from_routes(&there), 40);
    assert_eq!(system.get_travel_time_from_routes(&back), 40);
}

#[test]
fn no_route_gives_empty_path() {
    let mut system = three_stations();
    system.add_node("D").unwrap();
    assert!(system.get_least_time_path_to_move_from_point_a_to_point_b(0, 3).is_empty());
    assert_eq!(system.get_least_time_path_to_move_from_point_a_to_point_b(1, 1), vec![1]);
    assert_eq!(system.get_travel_time_from_routes(&vec![1]), 0);
}

#[test]
fn greedy_detours_can_keep_a_train_circling() {
    // The detour step sends the train from X toward W for the package waiting at Y, and from Y
    // toward Z for the one waiting at X; the fallback brings it back each time.
    let mut system = TrainFreightSystem::default();
    for name in ["X", "Y", "Z", "W"] {
        system.add_node(name).unwrap();
    }
    system.add_edge("E1", "X", "Y", Minute(1)).unwrap();
    system.add_edge("E2", "X", "Z", Minute(100)).unwrap();
    system.add_edge("E3", "Y", "W", Minute(100)).unwrap();
    system.add_package("K1", Kilogram(1), "X", "Z").unwrap();
    system.add_package("K2", Kilogram(1), "Y", "W").unwrap();
    system.add_train("T", Kilogram(5), "X").unwrap();
    let out = system.run_delivery(60);
    assert_eq!(out.end, RunEnd::OutOfTicks);
    assert_eq!(out.ticks.len(), 60);
    assert!(system.package_handler.have_undelivered_packages());
}

#[test]
fn completed_package_was_delivered_at_its_destination() {
    let mut system = three_stations();
    system.add_package("K1", Kilogram(5), "A", "C").unwrap();
    system.add_train("Q1", Kilogram(6), "B").unwrap();
    let out = system.run_delivery(100);
    assert_eq!((out.total, out.end), (Minute(70), RunEnd::AllDelivered));
    // Ticks: Q1 goes B to A (30), carries K1 A to B (30), then B to C (10).
    let advances: Vec<Minute> = out.ticks.iter().map(|t| t.advance).collect();
    assert_eq!(advances, vec![Minute(30), Minute(30), Minute(10)]);
    let totals: Vec<Minute> = out.ticks.iter().map(|t| t.total).collect();
    assert_eq!(totals, vec![Minute(30), Minute(60), Minute(70)]);
    let log: Vec<_> = out.ticks.iter().flat_map(|t| t.trains.iter()).collect();
    assert_eq!(log.len(), 3);
    let delivering: Vec<_> = log.iter().filter(|r| r.delivered.contains(&"K1".to_string())).collect();
    assert_eq!(delivering.len(), 1);
    assert_eq!(delivering[0].train, "Q1");
    assert_eq!(delivering[0].origin, "C");
    assert_eq!(delivering[0].elapsed, Minute(70));
    assert_eq!(log[1].origin, "B");
    assert_eq!(log[1].destination, "");
    assert!(log[1].in_transit.is_empty());
    assert!(matches!(system.package_handler.packages[0].status, Status::Completed));
}

#[test]
fn detour_moves_one_hop_toward_the_load() {
    // A-B-C-D in a line. The train at A, anchored on K1 (A to B), detours for K3 waiting at C.
    let mut system = TrainFreightSystem::default();
    for name in ["A", "B", "C", "D"] {
        system.add_node(name).unwrap();
    }
    system.add_edge("E1", "A", "B", Minute(10)).unwrap();
    system.add_edge("E2", "B", "C", Minute(10)).unwrap();
    system.add_edge("E3", "C", "D", Minute(10)).unwrap();
    system.add_package("K1", Kilogram(1), "A", "B").unwrap();
    system.add_package("K2", Kilogram(1), "D", "C").unwrap();
    system.add_package("K3", Kilogram(1), "C", "D").unwrap();
    system.add_train("Q1", Kilogram(5), "A").unwrap();
    let out = system.run_delivery(1);
    let line = &out.ticks[0].trains[0];
    // The first tick ends when Q1 reaches B, one edge from A.
    assert_eq!(out.ticks[0].advance, Minute(10));
    assert_eq!(line.origin, "B");
    // It went empty: K1 still waits at A.
    assert!(line.delivered.is_empty());
    assert!(matches!(system.package_handler.packages[0].status, Status::DroppedAt(_, _)));
}
