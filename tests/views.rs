use eisenhower_todo::views::{DeletedItem, EditItem, Item as ShownItem};
use eisenhower_todo::{DeletedItems, Item, ItemsList, NewItem, RepoError};

fn flagged(id: u32, important: bool, urgent: bool) -> Item {
    Item::new(id, &format!("item {}", id), "", important, urgent, 100)
}

#[test]
fn four_items_into_four_singleton_quadrants() {
    let items = vec![
        flagged(1, true, true),
        flagged(2, true, false),
        flagged(3, false, true),
        flagged(4, false, false),
    ];
    let list = ItemsList::from_items(&items).unwrap();
    assert_eq!(list.important_and_urgent().len(), 1);
    assert_eq!(list.important_and_urgent()[0].id, 1);
    assert_eq!(list.important().len(), 1);
    assert_eq!(list.important()[0].id, 2);
    assert_eq!(list.urgent().len(), 1);
    assert_eq!(list.urgent()[0].id, 3);
    assert_eq!(list.other().len(), 1);
    assert_eq!(list.other()[0].id, 4);
}

#[test]
fn quadrants_cover_the_input_once_in_order() {
    let items: Vec<Item> = (0..20u32).map(|k| flagged(k, k % 2 == 0, k % 3 == 0)).collect();
    let list = ItemsList::from_items(&items).unwrap();
    let total = list.important_and_urgent().len() + list.important().len() + list.urgent().len() + list.other().len();
    assert_eq!(total, items.len());
    let mut seen: Vec<u32> = Vec::new();
    for bucket in [list.important_and_urgent(), list.important(), list.urgent(), list.other()] {
        let ids: Vec<u32> = bucket.iter().map(|i| i.id).collect();
        let mut sorted = ids.clone();
        sorted.sort();
        assert_eq!(ids, sorted);
        for id in ids {
            assert!(!seen.contains(&id));
            seen.push(id);
        }
    }
    assert!(list.important_and_urgent().iter().all(|i| i.important && i.urgent));
    assert!(list.important().iter().all(|i| i.important && !i.urgent));
    assert!(list.urgent().iter().all(|i| !i.important && i.urgent));
    assert!(list.other().iter().all(|i| !i.important && !i.urgent));
}

#[test]
fn empty_list_has_empty_quadrants() {
    let items: Vec<Item> = Vec::new();
    let list = ItemsList::from_items(&items).unwrap();
    assert!(list.important_and_urgent().is_empty());
    assert!(list.important().is_empty());
    assert!(list.urgent().is_empty());
    assert!(list.other().is_empty());
}

#[test]
fn deleted_item_in_active_list_is_inconsistent() {
    let mut gone = flagged(2, true, true);
    gone.deleted = Some(5);
    let items = vec![flagged(1, false, false), gone];
    assert!(matches!(ItemsList::from_items(&items), Err(RepoError::InternalInconsistency(_))));
}

#[test]
fn deleted_items_newest_first() {
    let mut items = Vec::new();
    for (id, t) in [(1u32, 30i64), (2, 10), (3, 50), (4, 20), (5, 50)] {
        let mut it = flagged(id, false, false);
        it.deleted = Some(t);
        items.push(it);
    }
    let list = DeletedItems::try_from(items).unwrap();
    let times: Vec<i64> = list.items().iter().map(|i| i.deleted.unwrap()).collect();
    assert_eq!(times, vec![50, 50, 30, 20, 10]);
    let mut ids: Vec<u32> = list.items().iter().map(|i| i.id).collect();
    ids.sort();
    assert_eq!(ids, vec![1, 2, 3, 4, 5]);
}

#[test]
fn active_item_in_deleted_list_is_inconsistent() {
    let mut gone = flagged(1, false, false);
    gone.deleted = Some(1);
    let items = vec![gone, flagged(2, false, false)];
    assert!(matches!(DeletedItems::try_from(items), Err(RepoError::InternalInconsistency(_))));
}

#[test]
fn new_item_form_starts_blank() {
    let form = NewItem::default();
    assert!(form.title.is_none());
    assert!(form.body.is_none());
    assert!(form.important.is_none());
    assert!(form.urgent.is_none());
}

#[test]
fn single_item_pages_check_visibility() {
    let active = flagged(1, true, false);
    let mut gone = flagged(2, false, true);
    gone.deleted = Some(9);

    let shown = ShownItem::try_from(active.clone()).unwrap();
    assert_eq!(shown.item().id, 1);
    assert!(matches!(ShownItem::try_from(gone.clone()), Err(RepoError::InternalInconsistency(_))));

    let edit = EditItem::try_from(active.clone()).unwrap();
    assert_eq!(edit.item().title, "item 1");
    assert!(matches!(EditItem::try_from(gone.clone()), Err(RepoError::InternalInconsistency(_))));

    let restorable = DeletedItem::try_from(gone).unwrap();
    assert_eq!(restorable.item().deleted, Some(9));
    assert!(matches!(DeletedItem::try_from(active), Err(RepoError::InternalInconsistency(_))));
}
