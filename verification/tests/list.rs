use sourcemap_vis::list::{DummyList, ListOperations, SelectableList, Selection, SortOrder};

fn three() -> DummyList<Selection> {
    DummyList { state: Selection::new(), len: 3 }
}

#[test]
fn next_walks_forward_and_wraps() {
    let mut l = three();
    assert_eq!(l.selected(), None);
    l.next();
    assert_eq!(l.selected(), Some(0));
    l.next();
    assert_eq!(l.selected(), Some(1));
    l.next();
    assert_eq!(l.selected(), Some(2));
    l.next();
    assert_eq!(l.selected(), Some(0));
}

#[test]
fn previous_walks_back_and_wraps() {
    let mut l = three();
    l.previous();
    assert_eq!(l.selected(), Some(0));
    l.previous();
    assert_eq!(l.selected(), Some(2));
    l.previous();
    assert_eq!(l.selected(), Some(1));
}

#[test]
fn empty_lists_stay_at_slot_zero() {
    let mut l = DummyList { state: Selection::new(), len: 0 };
    l.next();
    assert_eq!(l.selected(), Some(0));
    l.previous();
    assert_eq!(l.selected(), Some(0));
}

#[test]
fn select_and_unselect() {
    let mut l = three();
    assert!(!l.has_selection());
    l.select(2);
    assert!(l.has_selection());
    assert_eq!(l.selected(), Some(2));
    l.unselect();
    assert_eq!(l.selected(), None);
    assert_eq!(l.len(), 3);
}

#[test]
fn sort_order_reverses() {
    assert_eq!(SortOrder::Asc.reverse(), SortOrder::Desc);
    assert_eq!(SortOrder::Desc.reverse(), SortOrder::Asc);
    assert_eq!(SortOrder::Asc.reverse().reverse(), SortOrder::Asc);
}
