use eve_route::security::classify;
use eve_route::{
    find_region_by_name, find_system_by_id, find_system_by_name, get_system_name,
    init_systems_by_name, Region, RouteError, Security, System, SystemSecurity, Universe,
};

fn sys(id: i64, name: &str, security: f32, region_id: i64, jumps: Vec<i64>) -> System {
    System {
        id,
        name: name.to_string(),
        security: Security::from_bits(security.to_bits()),
        constellation_id: 20000000 + region_id,
        constellation: format!("C{region_id}"),
        region_id,
        region: format!("R{region_id}"),
        jumps,
    }
}

fn region(name: &str, id: i64) -> Region {
    Region { name: name.to_string(), id }
}

fn sample() -> Universe {
    let systems = vec![
        sys(1, "Jita", 0.9, 10, vec![2]),
        sys(2, "Perimeter", 0.9, 10, vec![1, 3]),
        sys(3, "Amamake", 0.4, 11, vec![2, 4]),
        sys(4, "Amarr", 1.0, 12, vec![3]),
        sys(5, "J123456", -0.99, 13, vec![]),
        sys(6, "HED-GP", -0.4, 14, vec![]),
    ];
    let regions = vec![
        region("Catch", 14),
        region("Domain", 12),
        region("Heimatar", 11),
        region("The Forge", 10),
        region("The Spire", 15),
    ];
    Universe::new(systems, regions).unwrap()
}

fn class_of(security: f32, region_id: i64, id: i64) -> Option<SystemSecurity> {
    classify(Security::from_bits(security.to_bits()), region_id, id)
}

#[test]
fn classification_follows_the_thresholds() {
    assert_eq!(class_of(0.5, 1, 1), Some(SystemSecurity::Highsec));
    assert_eq!(class_of(1.0, 1, 1), Some(SystemSecurity::Highsec));
    assert_eq!(class_of(0.4999, 1, 1), Some(SystemSecurity::Lowsec));
    assert_eq!(class_of(0.0001, 1, 1), Some(SystemSecurity::Lowsec));
    assert_eq!(class_of(-0.0001, 1, 1), Some(SystemSecurity::Nullsec));
    assert_eq!(class_of(-1.0, 1, 1), Some(SystemSecurity::Nullsec));
    assert_eq!(class_of(-0.99, 1, 1), Some(SystemSecurity::Jspace));
    assert_eq!(class_of(-0.98, 1, 1), Some(SystemSecurity::Nullsec));
    assert_eq!(class_of(f32::INFINITY, 1, 1), Some(SystemSecurity::Highsec));
    assert_eq!(class_of(f32::NEG_INFINITY, 1, 1), Some(SystemSecurity::Nullsec));
}

#[test]
fn classification_puts_security_before_special_places() {
    assert_eq!(class_of(0.7, 10000070, 1), Some(SystemSecurity::Highsec));
    assert_eq!(class_of(0.2, 10000070, 1), Some(SystemSecurity::Lowsec));
    assert_eq!(class_of(-0.5, 10000070, 1), Some(SystemSecurity::Special));
    assert_eq!(class_of(-0.99, 10000070, 1), Some(SystemSecurity::Special));
    assert_eq!(class_of(-0.99, 1, 31000005), Some(SystemSecurity::Special));
    assert_eq!(class_of(-0.3, 1, 30002086), Some(SystemSecurity::Special));
    assert_eq!(class_of(-1.0, 1, 30100000), Some(SystemSecurity::Special));
    assert_eq!(class_of(0.0, 10000070, 1), Some(SystemSecurity::Special));
}

#[test]
fn classification_has_no_class_for_zero_and_not_a_number() {
    assert_eq!(class_of(0.0, 1, 1), None);
    assert_eq!(class_of(-0.0, 1, 1), None);
    assert_eq!(class_of(f32::NAN, 1, 1), None);
    assert_eq!(class_of(-f32::NAN, 1, 1), None);
}

#[test]
fn security_class_of_a_system_reports_the_fault() {
    let good = sys(7, "Good", 0.8, 1, vec![]);
    assert_eq!(good.get_security_class(), Ok(SystemSecurity::Highsec));
    let bad = sys(8, "Bad", 0.0, 1, vec![]);
    assert_eq!(bad.get_security_class(), Err(RouteError::DataIntegrityFault { system: 8 }));
}

#[test]
fn security_keeps_its_bits() {
    let s = Security::from_bits(0xBF7D_70A4);
    assert_eq!(s.to_bits(), 0xBF7D_70A4);
    assert_eq!(f32::from_bits(s.to_bits()), -0.99f32);
}

#[test]
fn universe_rejects_unsorted_systems() {
    let systems = vec![sys(2, "B", 0.9, 1, vec![]), sys(1, "A", 0.9, 1, vec![])];
    assert_eq!(Universe::new(systems, vec![]).err(), Some(RouteError::UnsortedTable));
    let twice = vec![sys(1, "A", 0.9, 1, vec![]), sys(1, "B", 0.9, 1, vec![])];
    assert_eq!(Universe::new(twice, vec![]).err(), Some(RouteError::UnsortedTable));
}

#[test]
fn universe_rejects_unsorted_regions() {
    let regions = vec![region("Domain", 1), region("Catch", 2)];
    assert_eq!(Universe::new(vec![], regions).err(), Some(RouteError::UnsortedTable));
    let upper_first = vec![region("Zeta", 1), region("alpha", 2)];
    assert!(Universe::new(vec![], upper_first).is_ok());
    let lower_first = vec![region("alpha", 2), region("Zeta", 1)];
    assert_eq!(Universe::new(vec![], lower_first).err(), Some(RouteError::UnsortedTable));
}

#[test]
fn universe_rejects_a_system_without_class() {
    let systems = vec![
        sys(1, "A", 0.9, 1, vec![]),
        sys(2, "B", 0.0, 1, vec![]),
        sys(3, "C", 0.0, 1, vec![]),
    ];
    assert_eq!(
        Universe::new(systems, vec![]).err(),
        Some(RouteError::DataIntegrityFault { system: 2 })
    );
}

#[test]
fn universe_rejects_a_gate_to_nowhere() {
    let systems = vec![sys(1, "A", 0.9, 1, vec![2, 9]), sys(2, "B", 0.9, 1, vec![1])];
    assert_eq!(
        Universe::new(systems, vec![]).err(),
        Some(RouteError::UnknownGate { system: 1, target: 9 })
    );
}

#[test]
fn universe_accepts_empty_tables() {
    let universe = Universe::new(vec![], vec![]).unwrap();
    assert!(universe.systems().is_empty());
    assert!(universe.regions().is_empty());
    assert_eq!(universe.position(1), None);
}

#[test]
fn systems_are_found_by_identifier() {
    let universe = sample();
    assert_eq!(universe.position(1), Some(0));
    assert_eq!(universe.position(6), Some(5));
    assert_eq!(universe.position(4), Some(3));
    assert_eq!(universe.position(0), None);
    assert_eq!(universe.position(7), None);
    assert_eq!(find_system_by_id(&universe, 3).name, "Amamake");
    assert_eq!(get_system_name(&universe, 5), "J123456");
}

#[test]
fn name_index_gives_the_last_system_of_a_name() {
    let systems = vec![sys(1, "Twin", 0.9, 1, vec![]), sys(2, "Twin", 0.9, 1, vec![])];
    let index = init_systems_by_name(&systems);
    assert_eq!(index.get("Twin"), Some(&2));
    assert_eq!(index.get("twin"), None);
    assert_eq!(index.len(), 1);
}

#[test]
fn exact_system_name_resolves() {
    let universe = sample();
    assert_eq!(find_system_by_name(&universe, "Jita"), Ok(1));
    assert_eq!(find_system_by_name(&universe, "Amarr"), Ok(4));
    assert_eq!(universe.lookup_name("Jita"), Some(1));
    assert_eq!(universe.lookup_name("jita"), None);
}

#[test]
fn exact_system_name_wins_over_loose_matches() {
    let systems = vec![
        sys(1, "Ama", 0.9, 1, vec![]),
        sys(2, "Amamake", 0.4, 1, vec![]),
        sys(3, "Amarr", 0.9, 1, vec![]),
    ];
    let universe = Universe::new(systems, vec![]).unwrap();
    assert_eq!(find_system_by_name(&universe, "Ama"), Ok(1));
    assert_eq!(
        find_system_by_name(&universe, "ama"),
        Err(RouteError::Ambiguous { query: "ama".to_string(), count: 3 })
    );
}

#[test]
fn loose_system_name_resolves_when_one_system_matches() {
    let universe = sample();
    assert_eq!(find_system_by_name(&universe, "jita"), Ok(1));
    assert_eq!(find_system_by_name(&universe, "JITA"), Ok(1));
    assert_eq!(find_system_by_name(&universe, "erim"), Ok(2));
    assert_eq!(find_system_by_name(&universe, "hed-"), Ok(6));
    assert_eq!(find_system_by_name(&universe, "123"), Ok(5));
}

#[test]
fn system_name_that_matches_nothing_is_not_found() {
    let universe = sample();
    assert_eq!(
        find_system_by_name(&universe, "Rens"),
        Err(RouteError::NotFound { query: "Rens".to_string() })
    );
}

#[test]
fn system_name_that_matches_several_is_ambiguous() {
    let universe = sample();
    assert_eq!(
        find_system_by_name(&universe, "Ama"),
        Err(RouteError::Ambiguous { query: "Ama".to_string(), count: 2 })
    );
    assert_eq!(
        find_system_by_name(&universe, ""),
        Err(RouteError::Ambiguous { query: String::new(), count: 6 })
    );
}

#[test]
fn exact_region_name_resolves_by_binary_search() {
    let universe = sample();
    assert_eq!(find_region_by_name(&universe, "Catch"), Ok(14));
    assert_eq!(find_region_by_name(&universe, "Domain"), Ok(12));
    assert_eq!(find_region_by_name(&universe, "Heimatar"), Ok(11));
    assert_eq!(find_region_by_name(&universe, "The Forge"), Ok(10));
    assert_eq!(find_region_by_name(&universe, "The Spire"), Ok(15));
}

#[test]
fn loose_region_name_resolves_or_fails() {
    let universe = sample();
    assert_eq!(find_region_by_name(&universe, "forge"), Ok(10));
    assert_eq!(find_region_by_name(&universe, "DOMAIN"), Ok(12));
    assert_eq!(
        find_region_by_name(&universe, "the"),
        Err(RouteError::Ambiguous { query: "the".to_string(), count: 2 })
    );
    assert_eq!(
        find_region_by_name(&universe, "Delve"),
        Err(RouteError::NotFound { query: "Delve".to_string() })
    );
}

#[test]
fn region_lookup_in_an_empty_table_is_not_found() {
    let universe = Universe::new(vec![], vec![]).unwrap();
    assert_eq!(
        find_region_by_name(&universe, "Catch"),
        Err(RouteError::NotFound { query: "Catch".to_string() })
    );
    assert_eq!(
        find_system_by_name(&universe, "Jita"),
        Err(RouteError::NotFound { query: "Jita".to_string() })
    );
}
