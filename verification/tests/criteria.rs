use cargo_vet::criteria::{CriteriaMapper, CriteriaSet};
use cargo_vet::records::CriteriaEntry;
use cargo_vet::sorted_map::SortedMap;

fn names(list: &[&str]) -> Vec<String> {
    list.iter().map(|s| s.to_string()).collect()
}

fn declare(list: &[(&str, &[&str])]) -> CriteriaMapper {
    let mut criteria: SortedMap<CriteriaEntry> = SortedMap::new();
    for (name, implies) in list {
        criteria.insert(
            name.to_string(),
            CriteriaEntry { description: None, implies: names(implies) },
        );
    }
    CriteriaMapper::new(&criteria)
}

fn reviewed() -> CriteriaMapper {
    declare(&[
        ("weak-reviewed", &[]),
        ("reviewed", &["weak-reviewed"]),
        ("strong-reviewed", &["reviewed"]),
        ("fuzzed", &[]),
    ])
}

#[test]
fn built_in_criteria_come_first() {
    let m = reviewed();
    assert_eq!(
        m.names,
        names(&[
            "safe-to-run",
            "safe-to-deploy",
            "fuzzed",
            "reviewed",
            "strong-reviewed",
            "weak-reviewed",
        ])
    );
    assert_eq!(m.len(), 6);
    assert_eq!(m.criteria_name(2), "fuzzed");
}

#[test]
fn criteria_imply_what_they_are_declared_to() {
    let m = reviewed();
    assert_eq!(m.criteria_from_name("strong-reviewed").indices(), vec![3, 4, 5]);
    assert_eq!(m.criteria_from_name("reviewed").indices(), vec![3, 5]);
    assert_eq!(m.criteria_from_name("weak-reviewed").indices(), vec![5]);
    assert_eq!(m.criteria_from_name("safe-to-deploy").indices(), vec![0, 1]);
    assert_eq!(
        m.criteria_from_list(&names(&["fuzzed", "reviewed"])).indices(),
        vec![2, 3, 5]
    );
    assert_eq!(m.implied_by_indices(5), vec![3, 4]);
    assert_eq!(m.implied_by_indices(4), Vec::<usize>::new());
}

#[test]
fn names_are_written_without_what_they_imply() {
    let m = reviewed();
    let set = m.criteria_from_list(&names(&["weak-reviewed", "fuzzed", "strong-reviewed"]));
    assert_eq!(m.minimal_indices(&set), vec![2, 4]);
    let written = m.criteria_names(&set);
    assert_eq!(written, names(&["fuzzed", "strong-reviewed"]));
    assert_eq!(m.criteria_from_list(&written), set);
}

#[test]
fn criteria_that_imply_each_other_are_not_written() {
    let m = declare(&[("a", &["b"]), ("b", &["a"])]);
    let set = m.criteria_from_name("a");
    assert_eq!(set.indices(), vec![2, 3]);
    assert_eq!(m.criteria_names(&set), Vec::<String>::new());
}

#[test]
fn sets_follow_the_laws_of_sets() {
    let mut a = CriteriaSet::none();
    assert!(a.is_empty());
    a.set_criteria(3);
    a.set_criteria(63);
    assert!(a.has_criteria(3) && a.has_criteria(63) && !a.has_criteria(4));
    assert!(!a.has_criteria(64));
    let mut b = CriteriaSet::none();
    b.set_criteria(3);
    b.set_criteria(5);
    let mut union = a;
    union.unioned_with(&b);
    assert_eq!(union.indices(), vec![3, 5, 63]);
    let mut both = a;
    both.intersected_with(&b);
    assert_eq!(both.indices(), vec![3]);
    let mut rest = a;
    rest.clear_criteria(&b);
    assert_eq!(rest.indices(), vec![63]);
    assert!(union.contains(&a) && union.contains(&b));
    assert!(!a.contains(&b));
    assert!(a.contains(&CriteriaSet::none()));
    assert_eq!(CriteriaSet::all(3).indices(), vec![0, 1, 2]);
}

#[test]
fn all_criteria_are_those_that_are_declared() {
    let m = reviewed();
    assert_eq!(m.all_criteria(), CriteriaSet::all(6));
}

#[test]
fn maps_are_walked_in_the_order_of_their_keys() {
    let mut map: SortedMap<u64> = SortedMap::new();
    map.insert("b".to_string(), 1);
    map.insert("a".to_string(), 2);
    map.insert("ab".to_string(), 3);
    map.insert("b".to_string(), 4);
    assert_eq!(map.len(), 3);
    let keys: Vec<&str> = (0..map.len()).map(|i| map.key_at(i).as_str()).collect();
    assert_eq!(keys, vec!["a", "ab", "b"]);
    assert_eq!(map.get("b"), Some(&4));
    assert_eq!(map.get("c"), None);
    assert!(map.contains_key("ab") && !map.contains_key(""));
}
