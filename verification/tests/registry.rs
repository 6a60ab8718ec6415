use asteroids::names::{compare_names, NameOrder};
use asteroids::registry::Registry;
use asteroids::table::Table;

fn names(registry: &Registry<u32>) -> Vec<(String, u32)> {
    (0..registry.len())
        .map(|at| {
            let (name, value) = registry.entry(at);
            (name.clone(), *value)
        })
        .collect()
}

fn keys(table: &Table<char>) -> Vec<(usize, char)> {
    (0..table.len())
        .map(|at| {
            let (key, value) = table.entry(at);
            (key, *value)
        })
        .collect()
}

#[test]
fn names_are_compared_as_strings_are() {
    let samples = ["", "a", "A", "ab", "abc", "abd", "b", "z", "zz", "\u{e9}", "e\u{301}", "\u{10348}", "\u{ffff}", "camera_sync_system", "movement_system"];
    for left in samples {
        for right in samples {
            let expected = match left.cmp(right) {
                std::cmp::Ordering::Less => NameOrder::Before,
                std::cmp::Ordering::Equal => NameOrder::Same,
                std::cmp::Ordering::Greater => NameOrder::After,
            };
            assert_eq!(compare_names(left, right), expected, "{:?} {:?}", left, right);
        }
    }
}

#[test]
fn a_prefix_comes_before_what_it_begins() {
    assert_eq!(compare_names("entity", "entity_despawn"), NameOrder::Before);
    assert_eq!(compare_names("entity_despawn", "entity"), NameOrder::After);
    assert_eq!(compare_names("", ""), NameOrder::Same);
    assert_eq!(compare_names("", "a"), NameOrder::Before);
}

#[test]
fn a_registry_keeps_its_entries_in_the_order_of_their_names() {
    let mut registry: Registry<u32> = Registry::new();
    assert_eq!(registry.insert("movement".to_string(), 1), None);
    assert_eq!(registry.insert("camera".to_string(), 2), None);
    assert_eq!(registry.insert("weapon".to_string(), 3), None);
    assert_eq!(registry.insert("despawn".to_string(), 4), None);

    assert_eq!(
        names(&registry),
        vec![
            ("camera".to_string(), 2),
            ("despawn".to_string(), 4),
            ("movement".to_string(), 1),
            ("weapon".to_string(), 3),
        ]
    );
    assert_eq!(registry.position("despawn"), (1, true));
    assert_eq!(registry.position("dog"), (2, false));
    assert_eq!(registry.position(""), (0, false));
    assert_eq!(registry.position("zebra"), (4, false));
}

#[test]
fn registering_under_a_name_again_replaces() {
    let mut registry: Registry<u32> = Registry::new();
    registry.insert("a".to_string(), 1);
    registry.insert("b".to_string(), 2);
    assert_eq!(registry.insert("a".to_string(), 3), Some(1));
    assert_eq!(names(&registry), vec![("a".to_string(), 3), ("b".to_string(), 2)]);
    assert_eq!(registry.get("a"), Some(&3));
    assert_eq!(registry.get("c"), None);
}

#[test]
fn removing_a_name_leaves_the_others() {
    let mut registry: Registry<u32> = Registry::new();
    for (name, value) in [("c", 3), ("a", 1), ("b", 2)] {
        registry.insert(name.to_string(), value);
    }
    assert_eq!(registry.remove("b"), Some(2));
    assert_eq!(registry.remove("b"), None);
    assert_eq!(registry.remove("zz"), None);
    assert_eq!(names(&registry), vec![("a".to_string(), 1), ("c".to_string(), 3)]);
    assert_eq!(registry.len(), 2);
}

#[test]
fn a_table_keeps_its_entries_in_the_order_of_their_keys() {
    let mut table: Table<char> = Table::new();
    assert_eq!(table.insert(5, 'e'), None);
    assert_eq!(table.insert(1, 'a'), None);
    assert_eq!(table.insert(9, 'i'), None);
    assert_eq!(table.insert(5, 'E'), Some('e'));
    table.append(10, 'j');

    assert_eq!(keys(&table), vec![(1, 'a'), (5, 'E'), (9, 'i'), (10, 'j')]);
    assert_eq!(table.position(5), (1, true));
    assert_eq!(table.position(6), (2, false));
    assert_eq!(table.position(0), (0, false));
    assert_eq!(table.position(11), (4, false));
    assert_eq!(table.get(9), Some(&'i'));
    assert_eq!(table.get(2), None);
    assert_eq!(table.remove(1), Some('a'));
    assert_eq!(table.remove(1), None);
    assert_eq!(table.into_entries(), vec![(5, 'E'), (9, 'i'), (10, 'j')]);
}
