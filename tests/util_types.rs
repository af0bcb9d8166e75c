use language_alchemist::util::{EditMode, NonEmptyList, Reordering};

#[test]
fn non_empty_list_basics() {
    let mut list = NonEmptyList::new(2);
    assert_eq!(list.len(), 1);
    list.prepend(1);
    list.tail.push(3);
    assert_eq!(list.len(), 3);
    let items: Vec<i32> = list.iter().into_iter().copied().collect();
    assert_eq!(items, vec![1, 2, 3]);
    assert_eq!(*list.get(2), 3);
    *list.get_mut(0) = 10;
    *list.get_mut(2) = 30;
    let items: Vec<i32> = list.iter().into_iter().copied().collect();
    assert_eq!(items, vec![10, 2, 30]);
}

#[test]
fn edit_mode_predicates() {
    assert!(EditMode::default().is_view());
    assert!(EditMode::Edit.is_edit());
    assert!(EditMode::Delete.is_delete());
    assert!(!EditMode::View.is_delete());
}

#[test]
fn reordering_moves_items() {
    let mut v = vec!['a', 'b', 'c', 'd'];
    Reordering { from_index: 0, to_index: 3 }.apply(&mut v);
    assert_eq!(v, vec!['b', 'c', 'a', 'd']);
    Reordering { from_index: 3, to_index: 0 }.apply(&mut v);
    assert_eq!(v, vec!['d', 'b', 'c', 'a']);
    Reordering { from_index: 1, to_index: 4 }.apply(&mut v);
    assert_eq!(v, vec!['d', 'c', 'a', 'b']);
    Reordering { from_index: 2, to_index: 2 }.apply(&mut v);
    assert_eq!(v, vec!['d', 'c', 'a', 'b']);
}
