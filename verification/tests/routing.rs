use eve_route::{
    choose_route, filter_jumps, find_route, get_shortest_path, load_stargates, plan_route, Jump,
    JumpMap, PolicyOptions, Region, Route, RouteError, Security, System, SystemSecurity,
    SystemValidityChecker, Universe, PENALTY,
};

fn sys(id: i64, name: &str, security: f32, region_id: i64, jumps: Vec<i64>) -> System {
    System {
        id,
        name: name.to_string(),
        security: Security::from_bits(security.to_bits()),
        constellation_id: 1,
        constellation: "Con".to_string(),
        region_id,
        region: format!("R{region_id}"),
        jumps,
    }
}

fn universe_of(systems: Vec<System>) -> Universe {
    let regions = vec![
        Region { name: "Alpha".to_string(), id: 1 },
        Region { name: "Beta".to_string(), id: 2 },
        Region { name: "Gamma".to_string(), id: 3 },
    ];
    Universe::new(systems, regions).unwrap()
}

fn no_policy() -> SystemValidityChecker {
    SystemValidityChecker {
        invalid_securities: vec![],
        invalid_regions: vec![],
        valid_ns_regions: vec![],
        invalid_systems: vec![],
    }
}

fn forbid(classes: Vec<SystemSecurity>) -> SystemValidityChecker {
    SystemValidityChecker {
        invalid_securities: classes,
        invalid_regions: vec![],
        valid_ns_regions: vec![],
        invalid_systems: vec![],
    }
}

/// A(0.9), B(0.3), C(-0.5), D(0.9) with gates A-B, B-C, C-D, A-D.
fn square() -> Universe {
    universe_of(vec![
        sys(1, "A", 0.9, 1, vec![2, 4]),
        sys(2, "B", 0.3, 1, vec![1, 3]),
        sys(3, "C", -0.5, 2, vec![2, 4]),
        sys(4, "D", 0.9, 1, vec![3, 1]),
    ])
}

fn gates(universe: &Universe) -> JumpMap {
    let mut jumps = JumpMap::new();
    load_stargates(universe, &mut jumps);
    jumps
}

fn cost(path: &[(i64, i64, Jump)], universe: &Universe, checker: &SystemValidityChecker) -> u64 {
    path.iter()
        .map(|hop| {
            let place = universe.position(hop.0).unwrap();
            if checker.is_system_valid(&universe.systems()[place]) {
                1
            } else {
                PENALTY
            }
        })
        .sum()
}

#[test]
fn penalty_is_a_thousand() {
    assert_eq!(PENALTY, 1000);
}

#[test]
fn checker_applies_each_of_its_four_rules() {
    let universe = square();
    let a = &universe.systems()[0];
    let b = &universe.systems()[1];
    let c = &universe.systems()[2];
    assert!(no_policy().is_system_valid(a));
    assert!(no_policy().is_system_valid(c));
    let by_class = forbid(vec![SystemSecurity::Lowsec]);
    assert!(by_class.is_system_valid(a));
    assert!(!by_class.is_system_valid(b));
    assert!(by_class.is_system_valid(c));
    let by_system = SystemValidityChecker { invalid_systems: vec![1], ..no_policy() };
    assert!(!by_system.is_system_valid(a));
    assert!(by_system.is_system_valid(b));
    let by_region = SystemValidityChecker { invalid_regions: vec![2], ..no_policy() };
    assert!(by_region.is_system_valid(a));
    assert!(!by_region.is_system_valid(c));
    let whitelist_other = SystemValidityChecker { valid_ns_regions: vec![3], ..no_policy() };
    assert!(!whitelist_other.is_system_valid(c));
    assert!(whitelist_other.is_system_valid(a));
    assert!(whitelist_other.is_system_valid(b));
    let whitelist_own = SystemValidityChecker { valid_ns_regions: vec![3, 2], ..no_policy() };
    assert!(whitelist_own.is_system_valid(c));
}

#[test]
fn checker_is_built_from_options() {
    let universe = square();
    let options = PolicyOptions {
        no_highsec: true,
        no_lowsec: false,
        no_nullsec: true,
        no_jspace: true,
        no_special: true,
        region_blacklist: vec!["Alpha".to_string(), "gam".to_string()],
        ns_region_whitelist: vec!["Beta".to_string()],
        system_blacklist: vec!["D".to_string(), "b".to_string()],
    };
    let checker = SystemValidityChecker::new(&universe, &options).unwrap();
    assert_eq!(
        checker.invalid_securities,
        vec![
            SystemSecurity::Highsec,
            SystemSecurity::Nullsec,
            SystemSecurity::Jspace,
            SystemSecurity::Special
        ]
    );
    assert_eq!(checker.invalid_regions, vec![1, 3]);
    assert_eq!(checker.valid_ns_regions, vec![2]);
    assert_eq!(checker.invalid_systems, vec![4, 2]);
}

#[test]
fn checker_from_empty_options_allows_everything() {
    let universe = square();
    let checker = SystemValidityChecker::new(&universe, &PolicyOptions::default()).unwrap();
    assert!(checker.invalid_securities.is_empty());
    assert!(checker.invalid_regions.is_empty());
    assert!(checker.valid_ns_regions.is_empty());
    assert!(checker.invalid_systems.is_empty());
    for s in universe.systems() {
        assert!(checker.is_system_valid(s));
    }
}

#[test]
fn checker_reports_the_first_name_that_does_not_resolve() {
    let universe = square();
    let options = PolicyOptions {
        region_blacklist: vec!["Alpha".to_string(), "a".to_string()],
        system_blacklist: vec!["Nowhere".to_string()],
        ns_region_whitelist: vec!["Delta".to_string()],
        ..PolicyOptions::default()
    };
    assert_eq!(
        SystemValidityChecker::new(&universe, &options).err(),
        Some(RouteError::Ambiguous { query: "a".to_string(), count: 3 })
    );
    let options = PolicyOptions {
        system_blacklist: vec!["Nowhere".to_string()],
        ns_region_whitelist: vec!["Delta".to_string()],
        ..PolicyOptions::default()
    };
    assert_eq!(
        SystemValidityChecker::new(&universe, &options).err(),
        Some(RouteError::NotFound { query: "Nowhere".to_string() })
    );
    let options = PolicyOptions {
        ns_region_whitelist: vec!["Delta".to_string()],
        ..PolicyOptions::default()
    };
    assert_eq!(
        SystemValidityChecker::new(&universe, &options).err(),
        Some(RouteError::NotFound { query: "Delta".to_string() })
    );
}

#[test]
fn path_from_a_system_to_itself_is_empty() {
    let universe = square();
    let jumps = gates(&universe);
    for id in 1..=4 {
        assert_eq!(get_shortest_path(&jumps, &universe, id, id, &no_policy()), Some(vec![]));
    }
    let empty = JumpMap::new();
    assert_eq!(get_shortest_path(&empty, &universe, 1, 1, &no_policy()), Some(vec![]));
    assert_eq!(get_shortest_path(&empty, &universe, 99, 99, &no_policy()), Some(vec![]));
}

#[test]
fn filter_removes_jumps_into_forbidden_systems_only() {
    let universe = square();
    let mut jumps = gates(&universe);
    let checker = forbid(vec![SystemSecurity::Lowsec]);
    filter_jumps(&mut jumps, &universe, &checker);
    assert_eq!(jumps.exits(1), Some(&vec![(4, Jump::Gate)]));
    assert_eq!(jumps.exits(2), Some(&vec![(1, Jump::Gate), (3, Jump::Gate)]));
    assert_eq!(jumps.exits(3), Some(&vec![(4, Jump::Gate)]));
    assert_eq!(jumps.exits(4), Some(&vec![(3, Jump::Gate), (1, Jump::Gate)]));
}

#[test]
fn filtered_square_routes_directly() {
    let universe = square();
    let mut jumps = gates(&universe);
    let checker = forbid(vec![SystemSecurity::Lowsec]);
    filter_jumps(&mut jumps, &universe, &checker);
    let path = get_shortest_path(&jumps, &universe, 1, 4, &checker).unwrap();
    assert_eq!(path, vec![(4, 1, Jump::Gate)]);
    assert_eq!(cost(&path, &universe, &checker), 1);
}

#[test]
fn filter_leaves_no_jump_from_allowed_to_forbidden() {
    let universe = square();
    let checker = forbid(vec![SystemSecurity::Nullsec, SystemSecurity::Lowsec]);
    let mut jumps = gates(&universe);
    filter_jumps(&mut jumps, &universe, &checker);
    for from in jumps.sources() {
        let from_sys = &universe.systems()[universe.position(from).unwrap()];
        let from_ok = checker.is_system_valid(from_sys);
        for (to, _) in jumps.exits(from).unwrap() {
            let to_sys = &universe.systems()[universe.position(*to).unwrap()];
            let to_ok = checker.is_system_valid(to_sys);
            assert!(!(from_ok && !to_ok));
        }
    }
    assert_eq!(jumps.exits(1), Some(&vec![(4, Jump::Gate)]));
    assert_eq!(jumps.exits(2), Some(&vec![(1, Jump::Gate), (3, Jump::Gate)]));
    assert_eq!(jumps.exits(3), Some(&vec![(2, Jump::Gate), (4, Jump::Gate)]));
    assert_eq!(jumps.exits(4), Some(&vec![(1, Jump::Gate)]));
}

#[test]
fn filter_twice_is_filter_once() {
    let universe = square();
    let checker = forbid(vec![SystemSecurity::Lowsec]);
    let mut jumps = gates(&universe);
    filter_jumps(&mut jumps, &universe, &checker);
    let mut once: Vec<_> =
        jumps.sources().into_iter().map(|k| (k, jumps.exits(k).unwrap().clone())).collect();
    once.sort();
    filter_jumps(&mut jumps, &universe, &checker);
    let mut twice: Vec<_> =
        jumps.sources().into_iter().map(|k| (k, jumps.exits(k).unwrap().clone())).collect();
    twice.sort();
    assert_eq!(once, twice);
}

#[test]
fn filter_drops_systems_left_without_exits() {
    let universe = universe_of(vec![sys(1, "A", 0.9, 1, vec![2]), sys(2, "B", 0.3, 1, vec![1])]);
    let mut jumps = gates(&universe);
    filter_jumps(&mut jumps, &universe, &forbid(vec![SystemSecurity::Lowsec]));
    assert_eq!(jumps.exits(1), None);
    assert_eq!(jumps.exits(2), Some(&vec![(1, Jump::Gate)]));
    assert_eq!(jumps.sources(), vec![2]);
}

#[test]
fn filter_without_policy_changes_nothing() {
    let universe = square();
    let mut jumps = gates(&universe);
    filter_jumps(&mut jumps, &universe, &no_policy());
    assert_eq!(jumps.exits(1), Some(&vec![(2, Jump::Gate), (4, Jump::Gate)]));
    assert_eq!(jumps.exits(3), Some(&vec![(2, Jump::Gate), (4, Jump::Gate)]));
}

#[test]
fn unfiltered_path_pays_the_penalty_to_avoid_nothing_cheaper() {
    // 1 - 2 - 5 is short but 2 is forbidden; 1 - 3 - 4 - 5 is longer and allowed.
    let universe = universe_of(vec![
        sys(1, "A", 0.9, 1, vec![2, 3]),
        sys(2, "B", 0.3, 1, vec![1, 5]),
        sys(3, "C", 0.9, 1, vec![1, 4]),
        sys(4, "D", 0.9, 1, vec![3, 5]),
        sys(5, "E", 0.9, 1, vec![2, 4]),
    ]);
    let jumps = gates(&universe);
    let checker = forbid(vec![SystemSecurity::Lowsec]);
    let path = get_shortest_path(&jumps, &universe, 1, 5, &checker).unwrap();
    assert_eq!(path, vec![(3, 1, Jump::Gate), (4, 3, Jump::Gate), (5, 4, Jump::Gate)]);
    assert_eq!(cost(&path, &universe, &checker), 3);
    let free = get_shortest_path(&jumps, &universe, 1, 5, &no_policy()).unwrap();
    assert_eq!(free, vec![(2, 1, Jump::Gate), (5, 2, Jump::Gate)]);
    let into = get_shortest_path(&jumps, &universe, 1, 2, &checker).unwrap();
    assert_eq!(into, vec![(2, 1, Jump::Gate)]);
    assert_eq!(cost(&into, &universe, &checker), 1000);
}

#[test]
fn forbidden_system_is_entered_when_nothing_else_leads_on() {
    let universe = universe_of(vec![
        sys(1, "A", 0.9, 1, vec![2]),
        sys(2, "B", 0.3, 1, vec![1, 3]),
        sys(3, "C", 0.9, 1, vec![2]),
    ]);
    let jumps = gates(&universe);
    let checker = forbid(vec![SystemSecurity::Lowsec]);
    let path = get_shortest_path(&jumps, &universe, 1, 3, &checker).unwrap();
    assert_eq!(path, vec![(2, 1, Jump::Gate), (3, 2, Jump::Gate)]);
    assert_eq!(cost(&path, &universe, &checker), 1001);
}

#[test]
fn unreachable_system_has_no_path() {
    let universe = universe_of(vec![
        sys(1, "A", 0.9, 1, vec![2]),
        sys(2, "B", 0.9, 1, vec![1]),
        sys(3, "C", 0.9, 1, vec![]),
    ]);
    let jumps = gates(&universe);
    assert_eq!(get_shortest_path(&jumps, &universe, 1, 3, &no_policy()), None);
    assert_eq!(get_shortest_path(&jumps, &universe, 3, 1, &no_policy()), None);
    assert_eq!(get_shortest_path(&jumps, &universe, 1, 77, &no_policy()), None);
    assert_eq!(get_shortest_path(&jumps, &universe, 77, 1, &no_policy()), None);
}

#[test]
fn jumps_are_followed_in_their_direction_only() {
    let universe = universe_of(vec![sys(1, "A", 0.9, 1, vec![2]), sys(2, "B", 0.9, 1, vec![])]);
    let jumps = gates(&universe);
    assert_eq!(
        get_shortest_path(&jumps, &universe, 1, 2, &no_policy()),
        Some(vec![(2, 1, Jump::Gate)])
    );
    assert_eq!(get_shortest_path(&jumps, &universe, 2, 1, &no_policy()), None);
}

#[test]
fn of_equal_paths_the_first_found_wins() {
    // 1 -> 2 -> 4 and 1 -> 3 -> 4 cost the same; 2 is looked at first.
    let universe = universe_of(vec![
        sys(1, "A", 0.9, 1, vec![2, 3]),
        sys(2, "B", 0.9, 1, vec![4]),
        sys(3, "C", 0.9, 1, vec![4]),
        sys(4, "D", 0.9, 1, vec![]),
    ]);
    let jumps = gates(&universe);
    assert_eq!(
        get_shortest_path(&jumps, &universe, 1, 4, &no_policy()),
        Some(vec![(2, 1, Jump::Gate), (4, 2, Jump::Gate)])
    );
    let swapped = universe_of(vec![
        sys(1, "A", 0.9, 1, vec![3, 2]),
        sys(2, "B", 0.9, 1, vec![4]),
        sys(3, "C", 0.9, 1, vec![4]),
        sys(4, "D", 0.9, 1, vec![]),
    ]);
    let jumps = gates(&swapped);
    assert_eq!(
        get_shortest_path(&jumps, &swapped, 1, 4, &no_policy()),
        Some(vec![(3, 1, Jump::Gate), (4, 3, Jump::Gate)])
    );
}

#[test]
fn of_two_links_between_the_same_systems_the_first_wins() {
    let universe = universe_of(vec![sys(1, "A", 0.9, 1, vec![]), sys(2, "B", 0.9, 1, vec![])]);
    let mut jumps = JumpMap::new();
    jumps.add_jump(1, 2, Jump::Wormhole);
    jumps.add_jump(1, 2, Jump::Gate);
    assert_eq!(
        get_shortest_path(&jumps, &universe, 1, 2, &no_policy()),
        Some(vec![(2, 1, Jump::Wormhole)])
    );
}

#[test]
fn a_cheaper_way_found_later_replaces_the_first() {
    // 4 is first reached through the forbidden 2 (1001), then cheaper through 3 and 5 (3).
    let universe = universe_of(vec![
        sys(1, "A", 0.9, 1, vec![2, 3]),
        sys(2, "B", 0.3, 1, vec![4]),
        sys(3, "C", 0.9, 1, vec![5]),
        sys(4, "D", 0.9, 1, vec![6]),
        sys(5, "E", 0.9, 1, vec![4]),
        sys(6, "F", 0.9, 1, vec![]),
    ]);
    let jumps = gates(&universe);
    let checker = forbid(vec![SystemSecurity::Lowsec]);
    assert_eq!(
        get_shortest_path(&jumps, &universe, 1, 6, &checker),
        Some(vec![
            (3, 1, Jump::Gate),
            (5, 3, Jump::Gate),
            (4, 5, Jump::Gate),
            (6, 4, Jump::Gate)
        ])
    );
}

#[test]
fn path_search_gives_the_same_answer_twice() {
    let universe = square();
    let jumps = gates(&universe);
    let checker = forbid(vec![SystemSecurity::Nullsec]);
    let first = get_shortest_path(&jumps, &universe, 2, 4, &checker);
    let second = get_shortest_path(&jumps, &universe, 2, 4, &checker);
    assert_eq!(first, second);
    assert_eq!(first, Some(vec![(1, 2, Jump::Gate), (4, 1, Jump::Gate)]));
}

/// A line 1 - 2 - 3 - 4 - 5 - 6.
fn line() -> Universe {
    universe_of(vec![
        sys(1, "A", 0.9, 1, vec![2]),
        sys(2, "B", 0.9, 1, vec![1, 3]),
        sys(3, "C", 0.9, 1, vec![2, 4]),
        sys(4, "D", 0.9, 1, vec![3, 5]),
        sys(5, "E", 0.9, 1, vec![4, 6]),
        sys(6, "F", 0.9, 1, vec![5]),
        sys(7, "G", 0.9, 1, vec![]),
    ])
}

#[test]
fn plan_route_lists_each_leg() {
    let universe = line();
    let jumps = gates(&universe);
    let plan = plan_route(&jumps, &universe, &no_policy(), vec![1, 3, 2]);
    assert_eq!(plan.systems, vec![1, 3, 2]);
    assert_eq!(
        plan.route,
        vec![
            Route { start: 1, end: 3, jumps: Some(vec![(2, 1, Jump::Gate), (3, 2, Jump::Gate)]) },
            Route { start: 3, end: 2, jumps: Some(vec![(2, 3, Jump::Gate)]) },
        ]
    );
    assert!(plan.complete);
    assert_eq!(plan.total_jumps, 3);
}

#[test]
fn plan_route_counts_nothing_for_a_missing_leg() {
    let universe = line();
    let jumps = gates(&universe);
    let plan = plan_route(&jumps, &universe, &no_policy(), vec![1, 7, 2]);
    assert_eq!(plan.route[0], Route { start: 1, end: 7, jumps: None });
    assert_eq!(plan.route[1], Route { start: 7, end: 2, jumps: None });
    assert!(!plan.complete);
    assert_eq!(plan.total_jumps, 0);
    let short = plan_route(&jumps, &universe, &no_policy(), vec![1]);
    assert!(short.route.is_empty());
    assert!(short.complete);
    assert_eq!(short.total_jumps, 0);
}

#[test]
fn optimizer_picks_the_shorter_order() {
    let universe = line();
    let jumps = gates(&universe);
    // Given 1, 5, 2, 6: the order 2 then 5 takes 1 + 3 + 1 = 5 jumps,
    // the order 5 then 2 takes 4 + 3 + 4 = 11.
    let plan = find_route(&jumps, &universe, &no_policy(), &vec![1, 5, 2, 6], false);
    assert_eq!(plan.systems, vec![1, 2, 5, 6]);
    assert_eq!(plan.total_jumps, 5);
    assert!(plan.complete);
    let given = find_route(&jumps, &universe, &no_policy(), &vec![1, 2, 5, 6], false);
    assert_eq!(given.systems, vec![1, 2, 5, 6]);
    assert_eq!(given, plan);
}

#[test]
fn optimizer_keeps_the_given_order_on_a_tie() {
    // 1 is joined to 2 and 3 alike, and so is 4.
    let universe = universe_of(vec![
        sys(1, "A", 0.9, 1, vec![2, 3]),
        sys(2, "X", 0.9, 1, vec![1, 3, 4]),
        sys(3, "Y", 0.9, 1, vec![1, 2, 4]),
        sys(4, "D", 0.9, 1, vec![2, 3]),
    ]);
    let jumps = gates(&universe);
    let plan = find_route(&jumps, &universe, &no_policy(), &vec![1, 2, 3, 4], false);
    assert_eq!(plan.systems, vec![1, 2, 3, 4]);
    assert_eq!(plan.total_jumps, 3);
    let other = find_route(&jumps, &universe, &no_policy(), &vec![1, 3, 2, 4], false);
    assert_eq!(other.systems, vec![1, 3, 2, 4]);
    assert_eq!(other.total_jumps, 3);
}

#[test]
fn exact_route_is_not_reordered() {
    let universe = line();
    let jumps = gates(&universe);
    let plan = find_route(&jumps, &universe, &no_policy(), &vec![1, 5, 2, 6], true);
    assert_eq!(plan.systems, vec![1, 5, 2, 6]);
    assert_eq!(plan.total_jumps, 11);
    assert!(plan.complete);
}

#[test]
fn route_with_two_waypoints_is_one_leg() {
    let universe = line();
    let jumps = gates(&universe);
    for exact in [false, true] {
        let plan = find_route(&jumps, &universe, &no_policy(), &vec![1, 3], exact);
        assert_eq!(plan.systems, vec![1, 3]);
        assert_eq!(plan.route.len(), 1);
        assert_eq!(plan.total_jumps, 2);
        assert!(plan.complete);
    }
}

#[test]
fn incomplete_route_is_reported_not_dropped() {
    let universe = line();
    let jumps = gates(&universe);
    let plan = find_route(&jumps, &universe, &no_policy(), &vec![1, 7, 3], false);
    assert!(!plan.complete);
    assert_eq!(plan.systems, vec![1, 7, 3]);
    assert_eq!(plan.route.len(), 2);
    assert_eq!(plan.route[0].jumps, None);
    assert_eq!(plan.total_jumps, 0);
}

#[test]
fn complete_route_beats_a_shorter_incomplete_one() {
    // One-way gates: 1 -> 2 -> 3 -> 4, so stops 3 then 2 cannot be completed.
    let universe = universe_of(vec![
        sys(1, "A", 0.9, 1, vec![2]),
        sys(2, "B", 0.9, 1, vec![3]),
        sys(3, "C", 0.9, 1, vec![4]),
        sys(4, "D", 0.9, 1, vec![]),
    ]);
    let jumps = gates(&universe);
    let plan = find_route(&jumps, &universe, &no_policy(), &vec![1, 3, 2, 4], false);
    assert_eq!(plan.systems, vec![1, 2, 3, 4]);
    assert!(plan.complete);
    assert_eq!(plan.total_jumps, 3);
    let forced = find_route(&jumps, &universe, &no_policy(), &vec![1, 3, 2, 4], true);
    assert!(!forced.complete);
    assert_eq!(forced.total_jumps, 4);
}

#[test]
fn choose_route_takes_the_first_of_the_best() {
    let universe = line();
    let jumps = gates(&universe);
    let orders = vec![vec![5, 2], vec![2, 5], vec![2, 5, 2], vec![2, 5]];
    let plan = choose_route(&jumps, &universe, &no_policy(), 1, 6, &orders);
    assert_eq!(plan.systems, vec![1, 2, 5, 6]);
    assert_eq!(plan.total_jumps, 5);
    let single = choose_route(&jumps, &universe, &no_policy(), 1, 6, &vec![vec![]]);
    assert_eq!(single.systems, vec![1, 6]);
    assert_eq!(single.total_jumps, 5);
}

#[test]
fn optimizer_tries_every_order_of_three_stops() {
    let universe = line();
    let jumps = gates(&universe);
    let plan = find_route(&jumps, &universe, &no_policy(), &vec![1, 5, 3, 4, 6], false);
    assert_eq!(plan.systems, vec![1, 3, 4, 5, 6]);
    assert_eq!(plan.total_jumps, 5);
}

#[test]
fn optimizer_gives_the_same_answer_twice() {
    let universe = line();
    let jumps = gates(&universe);
    let checker = forbid(vec![SystemSecurity::Lowsec]);
    let first = find_route(&jumps, &universe, &checker, &vec![6, 2, 4, 3, 1], false);
    let second = find_route(&jumps, &universe, &checker, &vec![6, 2, 4, 3, 1], false);
    assert_eq!(first, second);
    assert_eq!(first.systems, vec![6, 4, 3, 2, 1]);
}
