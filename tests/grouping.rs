use svc_skill::{group_by_coder, Skill};

fn row(id: u128, coder: u128) -> Skill {
    Skill::new(id, String::new(), String::new(), coder, 0)
}

fn ids(v: &Vec<Skill>) -> Vec<u128> {
    v.iter().map(|s| s.id).collect()
}

#[test]
fn grouping_partitions_rows_in_store_order() {
    let map = group_by_coder(&vec![1, 2], vec![row(10, 1), row(20, 2), row(30, 1)]);
    assert_eq!(map.len(), 2);
    assert_eq!(ids(&map[&1]), vec![10, 30]);
    assert_eq!(ids(&map[&2]), vec![20]);
}

#[test]
fn grouping_gives_requested_keys_without_rows_an_empty_entry() {
    let map = group_by_coder(&vec![1, 2, 3], vec![row(10, 2)]);
    assert_eq!(map.len(), 3);
    assert!(map[&1].is_empty());
    assert_eq!(ids(&map[&2]), vec![10]);
    assert!(map[&3].is_empty());
}

#[test]
fn grouping_of_nothing_is_empty() {
    let map = group_by_coder(&vec![], vec![]);
    assert!(map.is_empty());
}

#[test]
fn grouping_keeps_rows_of_unrequested_keys() {
    let map = group_by_coder(&vec![1], vec![row(10, 5), row(11, 1)]);
    assert_eq!(ids(&map[&1]), vec![11]);
    assert_eq!(ids(&map[&5]), vec![10]);
}
