use evremap::keys::{
    is_modifier, is_subset, list_difference, list_keys, modifiers_first, modifiers_last,
    sort_modifiers_first, sort_modifiers_last,
};
use std::cmp::Ordering;
use std::collections::HashSet;

#[test]
fn modifiers_compare_as_smaller() {
    let modifiers: HashSet<u16> = HashSet::from([29, 42]);
    assert!(is_modifier(&29, &modifiers));
    assert!(!is_modifier(&30, &modifiers));
    assert_eq!(modifiers_first(&29, &30, &modifiers), Ordering::Less);
    assert_eq!(modifiers_first(&30, &29, &modifiers), Ordering::Greater);
    assert_eq!(modifiers_first(&29, &42, &modifiers), Ordering::Equal);
    assert_eq!(modifiers_first(&30, &31, &modifiers), Ordering::Equal);
    assert_eq!(modifiers_last(&29, &30, &modifiers), Ordering::Greater);
    assert_eq!(modifiers_last(&30, &29, &modifiers), Ordering::Less);
    assert_eq!(modifiers_last(&29, &42, &modifiers), Ordering::Equal);
    assert_eq!(modifiers_last(&30, &31, &modifiers), Ordering::Equal);
}

#[test]
fn sorting_by_modifiers_is_stable() {
    let modifiers: HashSet<u16> = HashSet::from([29, 42, 56]);
    let list = vec![31, 42, 30, 29, 44, 56];
    assert_eq!(sort_modifiers_first(&list, &modifiers), vec![42, 29, 56, 31, 30, 44]);
    assert_eq!(sort_modifiers_last(&list, &modifiers), vec![31, 30, 44, 42, 29, 56]);

    let mut reference = list.clone();
    reference.sort_by(|a, b| modifiers_first(a, b, &modifiers));
    assert_eq!(sort_modifiers_first(&list, &modifiers), reference);
    let mut reference = list.clone();
    reference.sort_by(|a, b| modifiers_last(a, b, &modifiers));
    assert_eq!(sort_modifiers_last(&list, &modifiers), reference);

    assert_eq!(sort_modifiers_first(&vec![], &modifiers), Vec::<u16>::new());
}

#[test]
fn lists_of_keys() {
    let some: HashSet<u16> = HashSet::from([1, 2, 3]);
    let more: HashSet<u16> = HashSet::from([3, 2, 1, 4]);
    let mut list = list_keys(&some);
    list.sort();
    assert_eq!(list, vec![1, 2, 3]);
    assert!(is_subset(&some, &more));
    assert!(!is_subset(&more, &some));
    assert!(is_subset(&HashSet::new(), &some));
    assert_eq!(list_difference(&more, &some), vec![4]);
    assert_eq!(list_difference(&some, &more), Vec::<u16>::new());
}
