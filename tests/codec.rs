use eisenhower_todo::repo::select_visible;
use eisenhower_todo::{md, Item, RepoError};

fn sample() -> Item {
    Item {
        id: 3,
        title: String::from("Pay \"rent\""),
        body: String::from("line one\nline two\t\\ end \u{1} é ✓"),
        important: true,
        urgent: false,
        created: 1_700_000_000,
        modified: Some(1_700_000_100),
        deleted: None,
    }
}

fn same(a: &Item, b: &Item) -> bool {
    a.id == b.id
        && a.title == b.title
        && a.body == b.body
        && a.important == b.important
        && a.urgent == b.urgent
        && a.created == b.created
        && a.modified == b.modified
        && a.deleted == b.deleted
}

#[test]
fn serialize_writes_the_record_format() {
    let item = Item::new(1, "a", "b", true, false, 5);
    assert_eq!(
        item.serialize(),
        "{\"id\":1,\"title\":\"a\",\"body\":\"b\",\"important\":true,\"urgent\":false,\"created\":5,\"modified\":null,\"deleted\":null}"
    );
}

#[test]
fn serialize_escapes_quotes_backslashes_and_controls() {
    let mut item = Item::new(12, "q\"\\\n\u{1f}", "é", false, true, -7);
    item.modified = Some(0);
    item.deleted = Some(i64::MIN);
    assert_eq!(
        item.serialize(),
        "{\"id\":12,\"title\":\"q\\\"\\\\\\u000a\\u001f\",\"body\":\"é\",\"important\":false,\"urgent\":true,\"created\":-7,\"modified\":0,\"deleted\":-9223372036854775808}"
    );
}

#[test]
fn round_trip_keeps_every_field() {
    let x = sample();
    let back = Item::deserialize(&x.serialize()).unwrap();
    assert!(same(&x, &back));
}

#[test]
fn round_trip_at_the_limits() {
    let mut x = Item::new(u32::MAX, "", "", false, false, i64::MAX);
    x.modified = Some(i64::MIN);
    x.deleted = Some(-1);
    let back = Item::deserialize(&x.serialize()).unwrap();
    assert!(same(&x, &back));
}

#[test]
fn round_trip_of_every_control_character() {
    let title: String = (0u8..32).map(|b| b as char).collect();
    let x = Item::new(9, &title, "\u{7f}", true, true, 0);
    let back = Item::deserialize(&x.serialize()).unwrap();
    assert!(same(&x, &back));
}

#[test]
fn deserialize_rejects_other_text() {
    let bad = "{\"id\": 1}";
    assert_eq!(Item::deserialize(bad).unwrap_err(), RepoError::CorruptRecord(String::from(bad)));
    assert!(matches!(Item::deserialize(""), Err(RepoError::CorruptRecord(_))));
}

#[test]
fn deserialize_rejects_non_canonical_records() {
    let spaced = "{\"id\": 1,\"title\":\"a\",\"body\":\"b\",\"important\":true,\"urgent\":false,\"created\":5,\"modified\":null,\"deleted\":null}";
    assert!(Item::deserialize(spaced).is_err());
    let leading_zero = "{\"id\":01,\"title\":\"a\",\"body\":\"b\",\"important\":true,\"urgent\":false,\"created\":5,\"modified\":null,\"deleted\":null}";
    assert!(Item::deserialize(leading_zero).is_err());
    let short_escape = "{\"id\":1,\"title\":\"a\\n\",\"body\":\"b\",\"important\":true,\"urgent\":false,\"created\":5,\"modified\":null,\"deleted\":null}";
    assert!(Item::deserialize(short_escape).is_err());
    let trailing = "{\"id\":1,\"title\":\"a\",\"body\":\"b\",\"important\":true,\"urgent\":false,\"created\":5,\"modified\":null,\"deleted\":null} ";
    assert!(Item::deserialize(trailing).is_err());
    let too_big = "{\"id\":4294967296,\"title\":\"a\",\"body\":\"b\",\"important\":true,\"urgent\":false,\"created\":5,\"modified\":null,\"deleted\":null}";
    assert!(Item::deserialize(too_big).is_err());
}

#[test]
fn deserialize_reads_a_written_record() {
    let text = "{\"id\":4,\"title\":\"t\",\"body\":\"\",\"important\":false,\"urgent\":true,\"created\":-3,\"modified\":10,\"deleted\":11}";
    let it = Item::deserialize(text).unwrap();
    assert_eq!(it.id, 4);
    assert_eq!(it.title, "t");
    assert_eq!(it.body, "");
    assert!(!it.important);
    assert!(it.urgent);
    assert_eq!(it.created, -3);
    assert_eq!(it.modified, Some(10));
    assert_eq!(it.deleted, Some(11));
}

#[test]
fn select_visible_answers() {
    let active = Item::new(5, "a", "b", false, false, 1);
    let text = active.serialize();
    assert!(same(&select_visible(5, Some(text.clone()), false).unwrap(), &active));
    assert_eq!(select_visible(5, Some(text.clone()), true).unwrap_err(), RepoError::NotFound);
    assert_eq!(select_visible(6, Some(text.clone()), false).unwrap_err(), RepoError::CorruptRecord(text));
    assert_eq!(select_visible(5, None, false).unwrap_err(), RepoError::NotFound);
    assert_eq!(
        select_visible(5, Some(String::from("junk")), true).unwrap_err(),
        RepoError::CorruptRecord(String::from("junk"))
    );
    let mut gone = active.clone();
    gone.deleted = Some(2);
    let gone_text = gone.serialize();
    assert!(same(&select_visible(5, Some(gone_text.clone()), true).unwrap(), &gone));
    assert_eq!(select_visible(5, Some(gone_text), false).unwrap_err(), RepoError::NotFound);
}

#[test]
fn item_edits_and_marks() {
    let mut it = Item::new(1, "old", "old body", false, false, 10);
    it.apply_edit("new", "new body", true, true);
    assert_eq!(it.title, "new");
    assert_eq!(it.body, "new body");
    assert!(it.important && it.urgent);
    it.mark_deleted(20);
    assert!(!it.is_active());
    it.restore();
    assert!(it.is_active());
    it.mark_modified(30);
    assert_eq!(it.modified, Some(30));
    let copy = it.duplicate();
    assert!(same(&copy, &it));
}

#[test]
fn markdown_renders_html() {
    assert_eq!(md("*a*"), "<p><em>a</em></p>\n");
    let tasks = md("- [x] done");
    assert!(tasks.starts_with("<ul>\n<li><input disabled=\"\" type=\"checkbox\" checked=\"\"/>\n"));
    assert!(tasks.contains("done"));
    assert_eq!(md("| a |\n|---|\n| b |"), "<table><thead><tr><th>a</th></tr></thead><tbody>\n<tr><td>b</td></tr>\n</tbody></table>\n");
}

#[test]
fn error_messages() {
    assert_eq!(RepoError::NotFound.message(), "no such item");
    assert_eq!(RepoError::CorruptRecord(String::from("x")).message(), "corrupt item record: x");
    assert_eq!(
        RepoError::RepositoryUnavailable(String::from("locked")).message(),
        "item repository unavailable: locked"
    );
    assert_eq!(RepoError::InternalInconsistency(String::from("y")).message(), "internal inconsistency: y");
}
