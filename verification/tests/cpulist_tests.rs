use chcpu::cpulist::CpuList;
use chcpu::parse::parse_cpu_list;

fn ranges_of(list: &CpuList) -> Vec<(usize, usize)> {
    let mut out = Vec::new();
    let mut k = 0;
    while k < list.range_count() {
        out.push(list.range_at(k));
        k += 1;
    }
    out
}

fn indices_of(list: &CpuList) -> Vec<usize> {
    let mut out = Vec::new();
    let mut cur = list.first_index();
    while let Some(i) = cur {
        out.push(i);
        cur = list.next_index(i);
    }
    out
}

#[test]
fn iteration_is_ascending_and_duplicate_free() {
    let list = parse_cpu_list(b"10-13,0,7,2").unwrap();
    assert_eq!(indices_of(&list), vec![0, 2, 7, 10, 11, 12, 13]);
}

#[test]
fn iteration_identical_for_equal_sets() {
    let a = parse_cpu_list(b"0-2,5").unwrap();
    let b = parse_cpu_list(b"2,0-1,5").unwrap();
    assert_eq!(indices_of(&a), indices_of(&b));
    assert_eq!(ranges_of(&a), ranges_of(&b));
}

#[test]
fn insert_merges_touching_range() {
    let mut list = parse_cpu_list(b"0-2").unwrap();
    list.insert_range(3, 3);
    assert_eq!(ranges_of(&list), vec![(0, 3)]);
}

#[test]
fn insert_bridges_a_gap() {
    let mut list = parse_cpu_list(b"0-1,4-5").unwrap();
    list.insert_range(2, 3);
    assert_eq!(ranges_of(&list), vec![(0, 5)]);
}

#[test]
fn insert_into_empty_list() {
    let mut list = CpuList::new();
    list.insert_range(2, 4);
    assert_eq!(ranges_of(&list), vec![(2, 4)]);
}

#[test]
fn remove_splits_a_range() {
    let mut list = parse_cpu_list(b"0-3").unwrap();
    list.remove_index(2);
    assert_eq!(ranges_of(&list), vec![(0, 1), (3, 3)]);
}

#[test]
fn remove_trims_the_ends() {
    let mut list = parse_cpu_list(b"0-3").unwrap();
    list.remove_index(0);
    assert_eq!(ranges_of(&list), vec![(1, 3)]);
    list.remove_index(3);
    assert_eq!(ranges_of(&list), vec![(1, 2)]);
}

#[test]
fn remove_drops_a_lone_index() {
    let mut list = parse_cpu_list(b"1,5").unwrap();
    list.remove_index(5);
    assert_eq!(ranges_of(&list), vec![(1, 1)]);
}

#[test]
fn remove_of_absent_index_changes_nothing() {
    let mut list = parse_cpu_list(b"0-2,5").unwrap();
    list.remove_index(4);
    assert_eq!(ranges_of(&list), vec![(0, 2), (5, 5)]);
    list.remove_index(9);
    assert_eq!(ranges_of(&list), vec![(0, 2), (5, 5)]);
}

#[test]
fn contains_matches_the_list() {
    let list = parse_cpu_list(b"0-2,5").unwrap();
    assert!(list.contains_index(0));
    assert!(list.contains_index(2));
    assert!(!list.contains_index(3));
    assert!(list.contains_index(5));
    assert!(!list.contains_index(6));
}

#[test]
fn at_most_one_member() {
    assert!(CpuList::new().has_at_most_one());
    assert!(parse_cpu_list(b"5").unwrap().has_at_most_one());
    assert!(!parse_cpu_list(b"5-6").unwrap().has_at_most_one());
    assert!(!parse_cpu_list(b"1,5").unwrap().has_at_most_one());
}

#[test]
fn tracking_enable_then_disable() {
    // a batch snapshot: CPU 3 enabled, then CPU 1 disabled
    let mut list = parse_cpu_list(b"0-2").unwrap();
    list.insert_range(3, 3);
    assert_eq!(indices_of(&list), vec![0, 1, 2, 3]);
    list.remove_index(1);
    assert_eq!(indices_of(&list), vec![0, 2, 3]);
}

#[test]
fn first_index_of_empty_list_is_none() {
    assert_eq!(CpuList::new().first_index(), None);
}
