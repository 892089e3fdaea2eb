use mx_codec::marker::{ItemInfo, ListItems, MarkerList, SearchMarker};

fn item(indexable: bool, len: u64, client: u64, clock: u64) -> ItemInfo {
    ItemInfo { indexable, len, client, clock }
}

// three items of 5 positions each, by different clients
fn list() -> ListItems {
    ListItems { items: vec![item(true, 5, 1, 0), item(true, 5, 2, 0), item(true, 5, 3, 0)], len: 15 }
}

#[test]
fn test_find_marker_empty_or_zero() {
    let mut markers = MarkerList::new();
    assert_eq!(markers.find_marker(&list(), 0), None);
    let empty = ListItems { items: vec![], len: 0 };
    assert_eq!(markers.find_marker(&empty, 3), None);
    assert_eq!(markers.get_last_marker(), None);
}

#[test]
fn test_find_marker_walks_to_item() {
    let mut markers = MarkerList::new();
    let m = markers.find_marker(&list(), 7).unwrap();
    assert_eq!(m, SearchMarker { ptr: Some(1), index: 5 });
    assert_eq!(markers.get_last_marker(), Some(m));
    let m = markers.find_marker(&list(), 14).unwrap();
    assert_eq!(m, SearchMarker { ptr: Some(2), index: 10 });
}

#[test]
fn test_find_marker_skips_mergeable_items() {
    // item 1 continues item 0 of the same client, so the search steps back to item 0
    let l = ListItems { items: vec![item(true, 5, 1, 0), item(true, 5, 1, 5), item(true, 5, 2, 0)], len: 15 };
    let mut markers = MarkerList::new();
    let m = markers.find_marker(&l, 7).unwrap();
    assert_eq!(m, SearchMarker { ptr: Some(0), index: 0 });
}

#[test]
fn test_find_marker_reuses_close_marker() {
    let l = ListItems { items: (0..100).map(|i| item(true, 10, i, 0)).collect(), len: 1000 };
    let mut markers = MarkerList::new();
    let first = markers.find_marker(&l, 500).unwrap();
    assert_eq!(first, SearchMarker { ptr: Some(50), index: 500 });
    // moves by 10 < 1000 / 80: the marker is reused
    let second = markers.find_marker(&l, 512).unwrap();
    assert_eq!(second, SearchMarker { ptr: Some(51), index: 510 });
    assert_eq!(markers.get_last_marker(), Some(second));
    // moves by 400: a new marker is recorded
    let third = markers.find_marker(&l, 905).unwrap();
    assert_eq!(third, SearchMarker { ptr: Some(90), index: 900 });
    assert_eq!(markers.get_last_marker(), Some(third));
}

#[test]
fn test_find_marker_keeps_at_most_80() {
    let l = ListItems { items: (0..200).map(|i| item(true, 1, i, 0)).collect(), len: 200 };
    let mut markers = MarkerList::new();
    for i in 0..100 {
        let m = markers.find_marker(&l, 1 + 2 * i).unwrap();
        assert_eq!(m.index, 1 + 2 * i);
    }
    assert_eq!(markers.get_last_marker(), Some(SearchMarker { ptr: Some(199), index: 199 }));
}

#[test]
fn test_update_marker_changes() {
    let l = list();
    let mut markers = MarkerList::new();
    markers.find_marker(&l, 7).unwrap();
    // 3 positions inserted before the marker
    markers.update_marker_changes(&l, 2, 3);
    assert_eq!(markers.get_last_marker(), Some(SearchMarker { ptr: Some(1), index: 8 }));
    // 10 positions removed before it: clamped at the change
    markers.update_marker_changes(&l, 1, -10);
    assert_eq!(markers.get_last_marker(), Some(SearchMarker { ptr: Some(1), index: 1 }));
    // a change after the marker leaves it
    markers.update_marker_changes(&l, 4, 2);
    assert_eq!(markers.get_last_marker(), Some(SearchMarker { ptr: Some(1), index: 1 }));
}

#[test]
fn test_update_marker_changes_moves_off_deleted_items() {
    let l = ListItems { items: vec![item(true, 4, 1, 0), item(false, 2, 2, 0), item(true, 3, 3, 0)], len: 7 };
    let mut markers = MarkerList::new();
    markers.find_marker(&l, 5).unwrap();
    assert_eq!(markers.get_last_marker(), Some(SearchMarker { ptr: Some(2), index: 4 }));
    // now item 2 is deleted too; after an insertion at 10 the marker moves to item 0
    let l2 = ListItems { items: vec![item(true, 4, 1, 0), item(false, 2, 2, 0), item(false, 3, 3, 0)], len: 4 };
    markers.update_marker_changes(&l2, 10, 1);
    // it lands at position 0 and is dropped
    assert_eq!(markers.get_last_marker(), None);
}

#[test]
fn test_replace_marker() {
    let l = list();
    let mut markers = MarkerList::new();
    markers.find_marker(&l, 7).unwrap();
    markers.replace_marker(Some(1), Some(2), 5);
    assert_eq!(markers.get_last_marker(), Some(SearchMarker { ptr: Some(2), index: 10 }));
    markers.replace_marker(Some(0), Some(1), 100);
    assert_eq!(markers.get_last_marker(), Some(SearchMarker { ptr: Some(2), index: 10 }));
}

#[test]
fn test_find_marker_with_stale_marker() {
    let mut markers = MarkerList::new();
    let m = markers.find_marker(&list(), 12).unwrap();
    assert_eq!(m, SearchMarker { ptr: Some(2), index: 10 });
    // the list shrank to one item: the marker's item is gone, and it is reused as it is
    let short = ListItems { items: vec![item(true, 4, 9, 0)], len: 4 };
    assert_eq!(markers.find_marker(&short, 3), Some(SearchMarker { ptr: Some(2), index: 10 }));
    // no items at all: nothing is found and the markers stay
    let empty = ListItems { items: vec![], len: 0 };
    assert_eq!(markers.find_marker(&empty, 3), None);
    assert_eq!(markers.get_last_marker(), Some(SearchMarker { ptr: Some(2), index: 10 }));
}

#[test]
fn test_markers_follow_a_deletion() {
    // items 0..5, 5..10, 10..15; a marker on the last item
    let l = list();
    let mut markers = MarkerList::new();
    markers.find_marker(&l, 12).unwrap();
    // item 1 is deleted: its 5 positions at position 5 go
    let after = ListItems { items: vec![item(true, 5, 1, 0), item(false, 5, 2, 0), item(true, 5, 3, 0)], len: 10 };
    markers.update_marker_changes(&after, 5, -5);
    assert_eq!(markers.get_last_marker(), Some(SearchMarker { ptr: Some(2), index: 5 }));
    // the marker is again at its item's position: a search from it lands there
    assert_eq!(markers.find_marker(&after, 7), Some(SearchMarker { ptr: Some(2), index: 5 }));
}
