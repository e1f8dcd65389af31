use eisenhower_todo::repo::{item_id_of_row, select_items, write_outcome};
use eisenhower_todo::{Item, Repo, RepoError};
use rusqlite::Connection;

fn compare_item_fields(item1: &Item, item2: &Item) {
    assert!(item1.id == item2.id);
    assert!(item1.title == item2.title);
    assert!(item1.body == item2.body);
    assert!(item1.important == item2.important);
    assert!(item1.urgent == item2.urgent);
}

fn fresh_repo() -> Repo {
    let cxn = Connection::open_in_memory().expect("in-memory database");
    let mut repo = Repo::new(cxn);
    repo.init().expect("table created");
    repo
}

#[test]
fn test_repo() -> Result<(), RepoError> {
    let cxn = Connection::open_in_memory().map_err(|e| RepoError::RepositoryUnavailable(e.to_string()))?;
    let mut repo = Repo::new(cxn);
    repo.init()?;

    let mut item = repo.add("Test Item", "Test item body.", true, false)?;
    assert!(item.modified.is_none());
    assert!(item.deleted.is_none());

    let retrieved = repo.get(item.id)?;
    compare_item_fields(&item, &retrieved);
    assert!(item.modified.is_none());
    assert!(item.deleted.is_none());
    assert!(retrieved.modified.is_none());
    assert!(retrieved.deleted.is_none());

    item.title = String::from("Updated title");
    repo.update(&mut item)?;
    assert!(item.modified.is_some());
    assert!(item.deleted.is_none());

    let updated = repo.get(item.id)?;
    compare_item_fields(&item, &updated);
    assert!(updated.modified.is_some());
    assert!(updated.deleted.is_none());

    repo.delete(&item.id)?;
    assert!(repo.get(item.id).is_err());
    println!("{:?}", repo.get_deleted(item.id));
    assert!(repo.get_deleted(item.id).is_ok());

    Ok(())
}

#[test]
fn scenario_add_update_delete() {
    let mut repo = fresh_repo();
    let item = repo.add("Test Item", "Test item body.", true, false).unwrap();
    assert_eq!(item.title, "Test Item");
    assert_eq!(item.body, "Test item body.");
    assert!(item.important);
    assert!(!item.urgent);
    assert_eq!(item.modified, None);
    assert_eq!(item.deleted, None);

    let got = repo.get(item.id).unwrap();
    compare_item_fields(&item, &got);
    assert_eq!(got.created, item.created);
    assert_eq!(got.modified, None);
    assert_eq!(got.deleted, None);

    let mut edited = got.clone();
    edited.title = String::from("Updated title");
    repo.update(&mut edited).unwrap();
    assert!(edited.modified.is_some());
    let stored = repo.get(item.id).unwrap();
    assert_eq!(stored.title, "Updated title");
    assert_eq!(stored.modified, edited.modified);

    repo.delete(&item.id).unwrap();
    assert_eq!(repo.get(item.id).unwrap_err(), RepoError::NotFound);
    let gone = repo.get_deleted(item.id).unwrap();
    assert!(gone.deleted.is_some());
    assert_eq!(gone.title, "Updated title");
}

#[test]
fn add_returns_distinct_ids() {
    let mut repo = fresh_repo();
    let mut ids: Vec<u32> = Vec::new();
    for k in 0..25 {
        let item = repo.add(&format!("item {}", k), "", k % 2 == 0, k % 3 == 0).unwrap();
        assert!(item.id > 0);
        assert!(!ids.contains(&item.id));
        ids.push(item.id);
    }
    assert_eq!(ids.len(), 25);
}

#[test]
fn ids_are_not_reused_after_delete() {
    let mut repo = fresh_repo();
    let a = repo.add("a", "", false, false).unwrap();
    repo.delete(&a.id).unwrap();
    let b = repo.add("b", "", false, false).unwrap();
    assert_ne!(a.id, b.id);
}

#[test]
fn visibility_partition() {
    let mut repo = fresh_repo();
    let a = repo.add("a", "", true, true).unwrap();
    let b = repo.add("b", "", false, true).unwrap();
    let c = repo.add("c", "", true, false).unwrap();
    repo.delete(&b.id).unwrap();

    let active = repo.all().unwrap();
    let mut active_ids: Vec<u32> = active.iter().map(|i| i.id).collect();
    active_ids.sort();
    assert_eq!(active_ids, vec![a.id, c.id]);
    for item in &active {
        assert_eq!(repo.get_deleted(item.id).unwrap_err(), RepoError::NotFound);
        assert!(item.deleted.is_none());
    }

    let deleted = repo.deleted().unwrap();
    assert_eq!(deleted.len(), 1);
    assert_eq!(deleted[0].id, b.id);
    for item in &deleted {
        assert_eq!(repo.get(item.id).unwrap_err(), RepoError::NotFound);
        assert!(item.deleted.is_some());
    }
}

#[test]
fn delete_then_restore_gives_back_the_item() {
    let mut repo = fresh_repo();
    let x = repo.add("Groceries", "milk\neggs", true, false).unwrap();
    repo.delete(&x.id).unwrap();
    let d = repo.get_deleted(x.id).unwrap();
    assert!(d.deleted.is_some());
    assert_eq!(d.modified, d.deleted);
    repo.restore(&x.id).unwrap();
    let r = repo.get(x.id).unwrap();
    assert_eq!(r.id, x.id);
    assert_eq!(r.title, x.title);
    assert_eq!(r.body, x.body);
    assert_eq!(r.important, x.important);
    assert_eq!(r.urgent, x.urgent);
    assert_eq!(r.created, x.created);
    assert_eq!(r.deleted, None);
    assert!(r.modified.is_some());
    assert!(r.modified.unwrap() >= d.modified.unwrap());
    assert!(r.modified.unwrap() >= x.created);
}

#[test]
fn double_delete_is_not_found() {
    let mut repo = fresh_repo();
    let x = repo.add("x", "", false, false).unwrap();
    repo.delete(&x.id).unwrap();
    assert_eq!(repo.delete(&x.id), Err(RepoError::NotFound));
}

#[test]
fn restore_of_active_item_is_not_found() {
    let mut repo = fresh_repo();
    let x = repo.add("x", "", false, false).unwrap();
    assert_eq!(repo.restore(&x.id), Err(RepoError::NotFound));
    assert!(repo.get(x.id).is_ok());
}

#[test]
fn missing_ids_are_not_found() {
    let mut repo = fresh_repo();
    assert_eq!(repo.get(42).unwrap_err(), RepoError::NotFound);
    assert_eq!(repo.get_deleted(42).unwrap_err(), RepoError::NotFound);
    assert_eq!(repo.delete(&42), Err(RepoError::NotFound));
    assert_eq!(repo.restore(&42), Err(RepoError::NotFound));
    let mut ghost_item = Item::new(42, "t", "b", false, false, 0);
    assert_eq!(repo.update(&mut ghost_item), Err(RepoError::NotFound));
    assert!(ghost_item.modified.is_some());
    assert!(repo.all().unwrap().is_empty());
}

#[test]
fn init_is_idempotent() {
    let mut repo = fresh_repo();
    let x = repo.add("kept", "", false, false).unwrap();
    repo.init().unwrap();
    repo.init().unwrap();
    assert_eq!(repo.get(x.id).unwrap().title, "kept");
}

#[test]
fn corrupt_row_is_reported_with_its_text() {
    let cxn = Connection::open_in_memory().unwrap();
    cxn.execute("CREATE TABLE items (item BLOB NOT NULL)", ()).unwrap();
    cxn.execute("INSERT INTO items (item) VALUES ('not a record')", ()).unwrap();
    let mut repo = Repo::new(cxn);
    repo.init().unwrap();
    assert_eq!(repo.get(1).unwrap_err(), RepoError::CorruptRecord(String::from("not a record")));
    assert_eq!(repo.all().unwrap_err(), RepoError::CorruptRecord(String::from("not a record")));
    assert_eq!(repo.delete(&1), Err(RepoError::CorruptRecord(String::from("not a record"))));
}

#[test]
fn record_under_another_row_is_corrupt() {
    let cxn = Connection::open_in_memory().unwrap();
    cxn.execute("CREATE TABLE items (item BLOB NOT NULL)", ()).unwrap();
    let text = Item::new(7, "t", "b", false, false, 1).serialize();
    cxn.execute("INSERT INTO items (item) VALUES (?1)", (text.as_str(),)).unwrap();
    let repo = Repo::new(cxn);
    assert_eq!(repo.get(1).unwrap_err(), RepoError::CorruptRecord(text));
}

#[test]
fn missing_table_is_unavailable() {
    let cxn = Connection::open_in_memory().unwrap();
    let mut repo = Repo::new(cxn);
    assert!(matches!(repo.get(1), Err(RepoError::RepositoryUnavailable(_))));
    assert!(matches!(repo.all(), Err(RepoError::RepositoryUnavailable(_))));
    assert!(matches!(repo.add("a", "b", true, true), Err(RepoError::RepositoryUnavailable(_))));
}

#[test]
fn stored_text_is_the_items_record() {
    let mut repo = fresh_repo();
    let x = repo.add("quote \" here", "back\\slash", false, true).unwrap();
    let all = repo.all().unwrap();
    assert_eq!(all.len(), 1);
    assert_eq!(all[0].serialize(), x.serialize());
}

#[test]
fn select_items_decodes_and_filters() {
    let a = Item::new(1, "a", "", true, false, 10);
    let mut b = Item::new(2, "b", "", false, true, 11);
    b.deleted = Some(12);
    let raw = vec![(2i64, b.serialize()), (1i64, a.serialize())];
    let active = select_items(&raw, false).unwrap();
    assert_eq!(active.len(), 1);
    assert_eq!(active[0].id, 1);
    let deleted = select_items(&raw, true).unwrap();
    assert_eq!(deleted.len(), 1);
    assert_eq!(deleted[0].id, 2);
    assert!(select_items(&Vec::new(), false).unwrap().is_empty());
}

#[test]
fn select_items_reports_corrupt_rows() {
    let a = Item::new(1, "a", "", true, false, 10);
    let raw = vec![(1i64, a.serialize()), (2i64, String::from("junk"))];
    assert_eq!(select_items(&raw, false).unwrap_err(), RepoError::CorruptRecord(String::from("junk")));
    let moved = vec![(5i64, a.serialize())];
    assert_eq!(select_items(&moved, true).unwrap_err(), RepoError::CorruptRecord(a.serialize()));
}

#[test]
fn row_ids_become_item_ids_in_range() {
    assert_eq!(item_id_of_row(1), Some(1));
    assert_eq!(item_id_of_row(4_294_967_295), Some(u32::MAX));
    assert_eq!(item_id_of_row(4_294_967_296), None);
    assert_eq!(item_id_of_row(0), None);
    assert_eq!(item_id_of_row(-5), None);
}

#[test]
fn write_outcome_by_changed_rows() {
    assert_eq!(write_outcome(0), Err(RepoError::NotFound));
    assert_eq!(write_outcome(1), Ok(()));
}

#[test]
fn add_ids_increase() {
    let mut repo = fresh_repo();
    let mut last = 0u32;
    for k in 0..10 {
        let item = repo.add(&format!("item {}", k), "", false, false).unwrap();
        assert!(item.id > last);
        last = item.id;
        assert!(!repo.last_rollback_failed());
    }
}

#[test]
fn failed_add_leaves_the_table_as_it_was() {
    let cxn = Connection::open_in_memory().unwrap();
    cxn.execute("CREATE TABLE items (item BLOB NOT NULL CHECK (item != ''))", ()).unwrap();
    let text = Item::new(1, "kept", "", false, false, 1).serialize();
    cxn.execute("INSERT INTO items (item) VALUES (?1)", (text.as_str(),)).unwrap();
    let mut repo = Repo::new(cxn);
    assert!(matches!(repo.add("new", "", true, true), Err(RepoError::RepositoryUnavailable(_))));
    assert!(!repo.last_rollback_failed());
    let all = repo.all().unwrap();
    assert_eq!(all.len(), 1);
    assert_eq!(all[0].title, "kept");
}
