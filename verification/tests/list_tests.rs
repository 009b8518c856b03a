use chess_engine::board::Coord;
use chess_engine::list::List;

#[test]
fn new_list_is_empty() {
    let l: List<u8, 4> = List::new();
    assert!(l.is_empty());
    assert_eq!(l.len(), 0);
    assert_eq!(l.slice(), &[] as &[u8]);
}

#[test]
fn append_keeps_insertion_order() {
    let mut l: List<u8, 4> = List::new();
    l.append(7);
    l.append(3);
    l.append(9);
    assert!(!l.is_empty());
    assert_eq!(l.len(), 3);
    assert_eq!(l.get(1), 3);
    assert_eq!(l.slice(), &[7, 3, 9]);
}

#[test]
fn from_array_and_extend_concatenate() {
    let mut l: List<u8, 8> = List::from_array([1, 2, 3]);
    assert_eq!(l.slice(), &[1, 2, 3]);
    l.extend([4, 5]);
    assert_eq!(l.slice(), &[1, 2, 3, 4, 5]);
    l.extend([]);
    assert_eq!(l.slice(), &[1, 2, 3, 4, 5]);
}

#[test]
fn clear_empties_the_list() {
    let mut l: List<u8, 8> = List::from_array([1, 2, 3]);
    l.clear();
    assert!(l.is_empty());
    l.append(4);
    assert_eq!(l.slice(), &[4]);
}

#[test]
fn slice_mut_writes_through() {
    let mut l: List<u8, 8> = List::from_array([1, 2, 3]);
    l.slice_mut()[1] = 20;
    assert_eq!(l.slice(), &[1, 20, 3]);
}

#[test]
fn swap_remove_at_moves_the_last_item_in() {
    let mut l: List<u8, 8> = List::from_array([1, 2, 3, 4]);
    l.swap_remove_at(1);
    assert_eq!(l.slice(), &[1, 4, 3]);
    l.swap_remove_at(2);
    assert_eq!(l.slice(), &[1, 4]);
    l.swap_remove_at(0);
    assert_eq!(l.slice(), &[4]);
    l.swap_remove_at(0);
    assert!(l.is_empty());
}

#[test]
fn swap_remove_takes_the_first_equal_item() {
    let a = Coord::from_xy(0, 0);
    let b = Coord::from_xy(1, 0);
    let c = Coord::from_xy(2, 0);
    let mut l: List<Coord, 8> = List::from_array([a, b, a, c]);
    l.swap_remove(&a);
    assert_eq!(l.slice(), &[c, b, a]);
    l.swap_remove(&Coord::from_xy(7, 7));
    assert_eq!(l.slice(), &[c, b, a]);
    assert!(l.contains(&b));
    assert!(!l.contains(&Coord::from_xy(7, 7)));
}

#[test]
fn filter_keeps_matching_items_in_order_from_start() {
    let mut l: List<u8, 8> = List::from_array([1, 2, 3, 4, 5, 6]);
    l.filter(2, |v| *v % 2 == 0);
    assert_eq!(l.slice(), &[1, 2, 4, 6]);
    l.filter(0, |_| false);
    assert!(l.is_empty());
}

#[test]
fn filter_from_the_end_changes_nothing() {
    let mut l: List<u8, 8> = List::from_array([1, 3, 5]);
    l.filter(3, |_| false);
    assert_eq!(l.slice(), &[1, 3, 5]);
}

#[test]
fn clone_copies_the_items() {
    let l: List<u8, 8> = List::from_array([1, 2, 3]);
    let mut m = l.clone();
    m.append(4);
    assert_eq!(l.slice(), &[1, 2, 3]);
    assert_eq!(m.slice(), &[1, 2, 3, 4]);
}
