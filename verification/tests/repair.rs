use format_table::dialect::FormatTablePartitionPaths;
use format_table::error::Error;
use format_table::hive::HiveDialect;
use format_table::model::{CatalogPartition, TextMap};
use format_table::repair::{index_specs_by_name, repair, RepairActions, RepairMode, RepairWrite};

fn paths(keys: &[&str]) -> FormatTablePartitionPaths {
    let keys: Vec<String> = keys.iter().map(|key| key.to_string()).collect();
    FormatTablePartitionPaths::new(&keys, false)
}

fn spec(values: &[(&str, &str)]) -> TextMap {
    let mut map = TextMap::new();
    for (name, value) in values {
        map.insert(name.to_string(), value.to_string());
    }
    map
}

fn days(values: &[&str]) -> Vec<TextMap> {
    values.iter().map(|value| spec(&[("dt", value)])).collect()
}

fn registered(values: &[&str]) -> Vec<CatalogPartition> {
    values
        .iter()
        .map(|value| CatalogPartition { spec: spec(&[("dt", value)]), options: None })
        .collect()
}

fn located(value: &str, path: &str) -> CatalogPartition {
    CatalogPartition {
        spec: spec(&[("dt", value)]),
        options: Some(spec(&[("path", path)])),
    }
}

fn named(specs: &[TextMap]) -> Vec<String> {
    specs.iter().map(|spec| spec.get("dt").unwrap().clone()).collect()
}

fn decide(
    mode: RepairMode,
    discovered: &[&str],
    registered: Vec<CatalogPartition>,
) -> RepairActions {
    repair(&HiveDialect, &paths(&["dt"]), mode, Ok(()), Ok(days(discovered)), Ok(registered))
        .unwrap()
}

#[test]
fn test_repair_follows_the_directories() {
    // Another day has a directory; adding registers it.
    let actions = decide(
        RepairMode::Add,
        &["2026-07-21", "2026-07-22"],
        registered(&["2026-07-22"]),
    );
    assert_eq!(named(&actions.to_register), vec!["2026-07-21"]);
    assert!(actions.to_unregister.is_empty());

    // The directory of a day is gone; synchronizing unregisters it.
    let actions = decide(
        RepairMode::Sync,
        &["2026-07-21"],
        registered(&["2026-07-21", "2026-07-22"]),
    );
    assert!(actions.to_register.is_empty());
    assert_eq!(named(&actions.to_unregister), vec!["2026-07-22"]);
}

#[test]
fn test_what_each_mode_may_change() {
    let found = ["d", "b", "c"];
    let known = || registered(&["z", "c", "a"]);
    let add = decide(RepairMode::Add, &found, known());
    assert_eq!(named(&add.to_register), vec!["b", "d"]);
    assert!(add.to_unregister.is_empty());
    let drop = decide(RepairMode::Drop, &found, known());
    assert!(drop.to_register.is_empty());
    assert_eq!(named(&drop.to_unregister), vec!["a", "z"]);
    let sync = decide(RepairMode::Sync, &found, known());
    assert_eq!(named(&sync.to_register), vec!["b", "d"]);
    assert_eq!(named(&sync.to_unregister), vec!["a", "z"]);
}

#[test]
fn test_a_partition_at_a_location_of_its_own_stays_registered() {
    for mode in [RepairMode::Drop, RepairMode::Sync] {
        let known = vec![located("b", "file:///elsewhere/b"), located("c", "")];
        let actions = decide(mode, &["a"], known);
        assert!(actions.to_unregister.is_empty());
    }
    let other_option = CatalogPartition {
        spec: spec(&[("dt", "b")]),
        options: Some(spec(&[("owner", "x")])),
    };
    let actions = decide(RepairMode::Drop, &["a"], vec![other_option]);
    assert_eq!(named(&actions.to_unregister), vec!["b"]);
}

#[test]
fn test_a_second_repair_has_nothing_to_do() {
    let actions = decide(RepairMode::Sync, &["a", "b"], registered(&["b", "c"]));
    assert_eq!(named(&actions.to_register), vec!["a"]);
    assert_eq!(named(&actions.to_unregister), vec!["c"]);
    let again = decide(RepairMode::Sync, &["a", "b"], registered(&["b", "a"]));
    assert!(again.to_register.is_empty() && again.to_unregister.is_empty());
}

#[test]
fn test_registering_comes_before_unregistering() {
    let actions = RepairActions { to_register: days(&["a"]), to_unregister: days(&["b", "c"]) };
    let Some((RepairWrite::Register { specs, ignore_if_exists }, left)) =
        actions.next_write(Ok(())).unwrap()
    else {
        panic!("what is to be registered comes first");
    };
    assert_eq!(named(&specs), vec!["a"]);
    assert!(ignore_if_exists);
    let Some((RepairWrite::Unregister { specs }, left)) = left.next_write(Ok(())).unwrap() else {
        panic!("what is to be unregistered comes next");
    };
    assert_eq!(named(&specs), vec!["b", "c"]);
    assert!(left.next_write(Ok(())).unwrap().is_none());
}

#[test]
fn test_behind_a_failed_write_nothing_is_written() {
    let actions = RepairActions { to_register: days(&["a"]), to_unregister: days(&["b"]) };
    let (_, left) = actions.next_write(Ok(())).unwrap().unwrap();
    let failed = Err(Error::Other { message: "refused".to_string() });
    assert_eq!(left.next_write(failed).unwrap_err().message(), "refused");
}

#[test]
fn test_for_nothing_there_is_no_write() {
    let only_drop = RepairActions { to_register: vec![], to_unregister: days(&["b"]) };
    let write = only_drop.next_write(Ok(())).unwrap().unwrap().0;
    assert!(matches!(write, RepairWrite::Unregister { .. }));
    let nothing = RepairActions { to_register: vec![], to_unregister: vec![] };
    assert!(nothing.next_write(Ok(())).unwrap().is_none());
}

#[test]
fn test_raw_directory_values_are_kept() {
    let actions = decide(RepairMode::Add, &["01", "1"], registered(&["1"]));
    assert_eq!(named(&actions.to_register), vec!["01"]);
}

#[test]
fn test_a_failed_listing_changes_nothing() {
    let failed = |text: &str| Error::Other { message: text.to_string() };
    let decide = |mode, root: Result<(), Error>, found, known| {
        repair(&HiveDialect, &paths(&["dt"]), mode, root, found, known)
            .unwrap_err()
            .message()
            .to_string()
    };
    for mode in [RepairMode::Add, RepairMode::Drop, RepairMode::Sync] {
        assert_eq!(
            decide(mode, Ok(()), Err(failed("directories")), Err(failed("catalog"))),
            "directories"
        );
        assert_eq!(decide(mode, Ok(()), Ok(days(&["a"])), Err(failed("catalog"))), "catalog");
    }
    for mode in [RepairMode::Drop, RepairMode::Sync] {
        let missing = Err(Error::StorageNotFound { message: "root".to_string() });
        assert_eq!(decide(mode, missing, Ok(vec![]), Ok(registered(&["a"]))), "root");
    }
    let missing = Err(Error::StorageNotFound { message: "root".to_string() });
    let added = repair(
        &HiveDialect,
        &paths(&["dt"]),
        RepairMode::Add,
        missing,
        Ok(vec![]),
        Ok(registered(&["a"])),
    );
    assert!(added.unwrap().to_register.is_empty());
}

#[test]
fn test_a_specification_without_a_name_is_an_error() {
    let decide = |found: Vec<TextMap>, known: Vec<CatalogPartition>| {
        repair(
            &HiveDialect,
            &paths(&["dt"]),
            RepairMode::Add,
            Ok(()),
            Ok(found),
            Ok(known),
        )
    };
    let nameless = || spec(&[("hh", "1")]);
    assert_eq!(
        decide(vec![nameless()], vec![]).unwrap_err().message(),
        "Catalog partition is missing column 'dt'"
    );
    let known = CatalogPartition { spec: nameless(), options: None };
    assert!(decide(vec![], vec![known]).is_err());
}

#[test]
fn test_index_specs_by_name() {
    let specs = vec![
        spec(&[("dt", "b"), ("note", "first")]),
        spec(&[("dt", "a")]),
        spec(&[("dt", "b"), ("note", "last")]),
    ];
    let index = index_specs_by_name(&HiveDialect, &paths(&["dt"]), specs).unwrap();
    let names: Vec<&str> = index.entries.iter().map(|entry| entry.0.as_str()).collect();
    assert_eq!(names, vec!["dt=a", "dt=b"]);
    assert_eq!(index.entries[1].1.get("note"), Some(&"last".to_string()));
    assert!(index.contains_key("dt=a"));
    assert!(!index.contains_key("dt=c"));
}

#[test]
fn test_names_are_ordered_by_their_characters() {
    let specs = ["10", "9", "1", "\u{e9}", "Z", "a"];
    let index = index_specs_by_name(&HiveDialect, &paths(&["dt"]), days(&specs)).unwrap();
    let names: Vec<&str> = index.entries.iter().map(|entry| entry.0.as_str()).collect();
    assert_eq!(names, vec!["dt=1", "dt=10", "dt=9", "dt=Z", "dt=a", "dt=\u{e9}"]);
}
