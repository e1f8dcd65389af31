//! The item repository: items kept as records in one SQLite table, keyed by
//! the engine's row id, with soft delete and restore.
//!
//! Contracts speak of `rows()`, what the table holds, and of `stamp()`, the
//! last timestamp the repository handed out. Timestamps come from the clock
//! but never run backwards within one repository.
use vstd::prelude::*;

use crate::codec::{decoding, encoding, lemma_round_trip};
use crate::error::RepoError;
use crate::item::{Item, ItemView, Timestamp};
use crate::storage::{
    begin, clock_now, commit, create_table, describe, insert_blank, read_all, read_row, rollback,
    table_rows, tx_base, write_row,
};

verus! {

// ----------------------------------------------------------------
// What the table holds

/// The item stored under `key`: its record decoded, provided the record
/// carries that same id.
pub open spec fn item_at(rows: Map<int, Seq<char>>, key: int) -> Option<ItemView> {
    if rows.contains_key(key) {
        match decoding(rows[key]) {
            Some(x) => if x.id as int == key {
                Some(x)
            } else {
                None
            },
            None => None,
        }
    } else {
        None
    }
}

/// A row whose record is not the encoding of an item with the row's id.
pub open spec fn corrupt_at(rows: Map<int, Seq<char>>, key: int) -> bool {
    rows.contains_key(key) && item_at(rows, key) is None
}

/// The item with `id`, if it is stored and has the asked-for visibility:
/// deleted when `want_deleted`, active otherwise.
pub open spec fn lookup(rows: Map<int, Seq<char>>, id: u32, want_deleted: bool) -> Option<ItemView> {
    match item_at(rows, id as int) {
        Some(x) => if x.is_active() != want_deleted {
            Some(x)
        } else {
            None
        },
        None => None,
    }
}

/// What a fetch of `id` may answer: the item when visible, `NotFound` when
/// absent or of the other visibility, `CorruptRecord` with the raw record when
/// it does not decode, and `RepositoryUnavailable` when the engine fails.
pub open spec fn fetch_outcome(
    rows: Map<int, Seq<char>>,
    id: u32,
    want_deleted: bool,
    r: Result<Item, RepoError>,
) -> bool {
    match r {
        Ok(it) => lookup(rows, id, want_deleted) == Some(it@),
        Err(RepoError::NotFound) => lookup(rows, id, want_deleted) is None && !corrupt_at(rows, id as int),
        Err(RepoError::CorruptRecord(raw)) => corrupt_at(rows, id as int) && raw@ == rows[id as int],
        Err(RepoError::RepositoryUnavailable(_)) => true,
        Err(RepoError::InternalInconsistency(_)) => false,
    }
}

pub open spec fn views(v: Seq<Item>) -> Seq<ItemView> {
    v.map_values(|it: Item| it@)
}

/// `v` lists every stored item of the asked-for visibility, each once.
pub open spec fn listing(rows: Map<int, Seq<char>>, v: Seq<ItemView>, want_deleted: bool) -> bool {
    &&& forall|i: int| 0 <= i < v.len() ==> lookup(rows, #[trigger] v[i].id, want_deleted) == Some(v[i])
    &&& forall|id: u32|
        #[trigger] lookup(rows, id, want_deleted) is Some ==> exists|i: int| 0 <= i < v.len() && v[i].id == id
    &&& forall|i: int, j: int| 0 <= i < j < v.len() ==> v[i].id != v[j].id
}

/// What a listing may answer: all items of the asked-for visibility when no
/// row is corrupt, else `CorruptRecord` with a corrupt row's record, and
/// `RepositoryUnavailable` when the engine fails.
pub open spec fn scan_outcome(rows: Map<int, Seq<char>>, want_deleted: bool, r: Result<Vec<Item>, RepoError>) -> bool {
    match r {
        Ok(v) => listing(rows, views(v@), want_deleted) && forall|k: int| !#[trigger] corrupt_at(rows, k),
        Err(RepoError::CorruptRecord(raw)) => exists|k: int| #[trigger] corrupt_at(rows, k) && raw@ == rows[k],
        Err(RepoError::RepositoryUnavailable(_)) => true,
        Err(_) => false,
    }
}

// ----------------------------------------------------------------
// Answers from what the table returned

/// The answer to a fetch of `id`, from the record the table returned for it
/// (`None`: no such row).
pub fn select_visible(id: u32, fetched: Option<String>, want_deleted: bool) -> (r: Result<Item, RepoError>)
    ensures
        match fetched {
            None => r == Err::<Item, RepoError>(RepoError::NotFound),
            Some(s) => match decoding(s@) {
                Some(x) => if x.id != id {
                    r matches Err(RepoError::CorruptRecord(raw)) && raw@ == s@
                } else if x.is_active() != want_deleted {
                    r matches Ok(it) && it@ == x
                } else {
                    r == Err::<Item, RepoError>(RepoError::NotFound)
                },
                None => r matches Err(RepoError::CorruptRecord(raw)) && raw@ == s@,
            },
        },
{
    match fetched {
        None => Err(RepoError::NotFound),
        Some(s) => match Item::deserialize(s.as_str()) {
            Ok(it) => {
                if it.id != id {
                    Err(RepoError::CorruptRecord(s))
                } else if it.is_active() != want_deleted {
                    Ok(it)
                } else {
                    Err(RepoError::NotFound)
                }
            },
            Err(e) => Err(e),
        },
    }
}

/// The rows a read of the whole table returned, as a map from row id to
/// record.
pub open spec fn rows_of(raw: Seq<(i64, String)>) -> Map<int, Seq<char>>
    decreases raw.len(),
{
    if raw.len() == 0 {
        Map::empty()
    } else {
        rows_of(raw.drop_last()).insert(raw.last().0 as int, raw.last().1@)
    }
}

pub open spec fn distinct_keys(raw: Seq<(i64, String)>) -> bool {
    forall|i: int, j: int| 0 <= i < j < raw.len() ==> raw[i].0 != raw[j].0
}

proof fn lemma_rows_of(raw: Seq<(i64, String)>)
    requires
        distinct_keys(raw),
    ensures
        forall|j: int|
            0 <= j < raw.len() ==> rows_of(raw).contains_key(#[trigger] raw[j].0 as int) && rows_of(raw)[raw[j].0 as int]
                == raw[j].1@,
        forall|k: int| #[trigger] rows_of(raw).contains_key(k) ==> exists|j: int| 0 <= j < raw.len() && raw[j].0 as int == k,
    decreases raw.len(),
{
    if raw.len() > 0 {
        let t = raw.drop_last();
        assert(distinct_keys(t));
        lemma_rows_of(t);
        assert(rows_of(raw) == rows_of(t).insert(raw.last().0 as int, raw.last().1@));
        assert forall|j: int| 0 <= j < raw.len() implies rows_of(raw).contains_key(#[trigger] raw[j].0 as int)
            && rows_of(raw)[raw[j].0 as int] == raw[j].1@ by {
            if j < raw.len() - 1 {
                assert(raw[j] == t[j]);
                assert(raw[j].0 != raw[raw.len() - 1].0);
            }
        }
        assert forall|k: int| #[trigger] rows_of(raw).contains_key(k) implies exists|j: int|
            0 <= j < raw.len() && raw[j].0 as int == k by {
            if k != raw.last().0 as int {
                assert(rows_of(t).contains_key(k));
                let j = choose|j: int| 0 <= j < t.len() && t[j].0 as int == k;
                assert(raw[j] == t[j]);
            } else {
                assert(raw[raw.len() - 1].0 as int == k);
            }
        }
    }
}

/// The answer to a listing, from the rows a read of the whole table
/// returned: the decoded items of the asked-for visibility when every row
/// holds the record of an item with its id, else `CorruptRecord` with the
/// first corrupt row's record.
pub fn select_items(raw: &Vec<(i64, String)>, want_deleted: bool) -> (r: Result<Vec<Item>, RepoError>)
    requires
        distinct_keys(raw@),
    ensures
        match r {
            Ok(v) => (forall|k: int| !#[trigger] corrupt_at(rows_of(raw@), k)) && listing(
                rows_of(raw@),
                views(v@),
                want_deleted,
            ),
            Err(RepoError::CorruptRecord(s)) => exists|j: int|
                0 <= j < raw.len() && #[trigger] corrupt_at(rows_of(raw@), raw@[j].0 as int) && s@ == raw@[j].1@,
            Err(_) => false,
        },
{
    let ghost rows = rows_of(raw@);
    proof {
        lemma_rows_of(raw@);
    }
    let mut out: Vec<Item> = Vec::new();
    let ghost mut idx: Seq<int> = Seq::empty();
    let mut i: usize = 0;
    while i < raw.len()
        invariant
            rows == rows_of(raw@),
            distinct_keys(raw@),
            forall|j: int|
                0 <= j < raw.len() ==> rows.contains_key(#[trigger] raw@[j].0 as int) && rows[raw@[j].0 as int]
                    == raw@[j].1@,
            forall|k: int| #[trigger] rows.contains_key(k) ==> exists|j: int| 0 <= j < raw.len() && raw@[j].0 as int == k,
            i <= raw.len(),
            forall|j: int| 0 <= j < i ==> item_at(rows, #[trigger] raw@[j].0 as int) is Some,
            idx.len() == out.len(),
            forall|k: int|
                0 <= k < idx.len() ==> 0 <= #[trigger] idx[k] < i && item_at(rows, raw@[idx[k]].0 as int) == Some(
                    out@[k]@,
                ) && out@[k].id as int == raw@[idx[k]].0 as int,
            forall|k: int, l: int| 0 <= k < l < idx.len() ==> idx[k] < idx[l],
            forall|k: int| 0 <= k < out.len() ==> (#[trigger] out@[k])@.is_active() != want_deleted,
            forall|j: int|
                0 <= j < i && item_at(rows, #[trigger] raw@[j].0 as int).unwrap().is_active() != want_deleted
                    ==> exists|k: int| 0 <= k < idx.len() && idx[k] == j,
        decreases raw.len() - i,
    {
        let key = raw[i].0;
        let it = match Item::deserialize(raw[i].1.as_str()) {
            Ok(it) => it,
            Err(e) => {
                proof {
                    assert(corrupt_at(rows, raw@[i as int].0 as int));
                }
                return Err(e);
            },
        };
        if it.id as i64 != key {
            proof {
                assert(corrupt_at(rows, raw@[i as int].0 as int));
            }
            return Err(RepoError::CorruptRecord(raw[i].1.clone()));
        }
        assert(item_at(rows, key as int) == Some(it@));
        let ghost old_idx = idx;
        let ghost old_out = out@;
        if it.is_active() != want_deleted {
            out.push(it);
            proof {
                idx = idx.push(i as int);
                assert forall|k: int| 0 <= k < old_idx.len() implies idx[k] == old_idx[k] && out@[k] == old_out[k] by {}
                assert forall|j: int|
                    0 <= j < i + 1 && item_at(rows, #[trigger] raw@[j].0 as int).unwrap().is_active() != want_deleted
                        implies exists|k: int| 0 <= k < idx.len() && idx[k] == j by {
                    if j < i {
                        let k = choose|k: int| 0 <= k < old_idx.len() && old_idx[k] == j;
                        assert(idx[k] == j);
                    } else {
                        assert(idx[idx.len() - 1] == j);
                    }
                }
            }
        }
        i = i + 1;
    }
    proof {
        let v = views(out@);
        assert forall|k: int| 0 <= k < v.len() implies lookup(rows, #[trigger] v[k].id, want_deleted) == Some(v[k]) by {
            assert(v[k] == out@[k]@);
            assert(out@[k].id as int == raw@[idx[k]].0 as int);
        }
        assert forall|id: u32| #[trigger] lookup(rows, id, want_deleted) is Some implies exists|k: int|
            0 <= k < v.len() && v[k].id == id by {
            assert(rows.contains_key(id as int));
            let j = choose|j: int| 0 <= j < raw.len() && raw@[j].0 as int == id as int;
            assert(item_at(rows, raw@[j].0 as int) is Some);
            let k = choose|k: int| 0 <= k < idx.len() && idx[k] == j;
            assert(v[k] == out@[k]@);
        }
        assert forall|k: int, l: int| 0 <= k < l < v.len() implies v[k].id != v[l].id by {
            assert(v[k] == out@[k]@);
            assert(v[l] == out@[l]@);
            assert(idx[k] < idx[l]);
            assert(raw@[idx[k]].0 != raw@[idx[l]].0);
        }
        assert forall|k: int| !#[trigger] corrupt_at(rows, k) by {
            if rows.contains_key(k) {
                let j = choose|j: int| 0 <= j < raw.len() && raw@[j].0 as int == k;
                assert(item_at(rows, raw@[j].0 as int) is Some);
            }
        }
    }
    Ok(out)
}

/// The item id a new row's id gives: the row id itself when it is a
/// positive `u32`.
pub fn item_id_of_row(key: i64) -> (r: Option<u32>)
    ensures
        r == (if 1 <= key <= u32::MAX as i64 {
            Some(key as u32)
        } else {
            None::<u32>
        }),
{
    if 1 <= key && key <= u32::MAX as i64 {
        Some(key as u32)
    } else {
        None
    }
}

/// The answer to a write, from the count of rows it changed: `NotFound`
/// when no row had the id.
pub fn write_outcome(n: usize) -> (r: Result<(), RepoError>)
    ensures
        r == (if n == 0 {
            Err::<(), RepoError>(RepoError::NotFound)
        } else {
            Ok(())
        }),
{
    if n == 0 {
        Err(RepoError::NotFound)
    } else {
        Ok(())
    }
}

// ----------------------------------------------------------------
// The repository

/// The item store over one SQLite connection.
pub struct Repo {
    cxn: rusqlite::Connection,
    last_stamp: Timestamp,
    rollback_failed: bool,
}

fn unavailable(e: &rusqlite::Error) -> (r: RepoError)
    ensures
        r is RepositoryUnavailable,
{
    RepoError::RepositoryUnavailable(describe(e))
}

impl Repo {
    /// What the table holds: row id to stored record.
    pub closed spec fn rows(&self) -> Map<int, Seq<char>> {
        table_rows(self.cxn)
    }

    /// The last timestamp this repository handed out.
    pub closed spec fn stamp(&self) -> Timestamp {
        self.last_stamp
    }

    /// The last `add` failed and its rollback failed too.
    pub closed spec fn rollback_failed(&self) -> bool {
        self.rollback_failed
    }

    /// The rows as they stood when the connection last opened a transaction.
    closed spec fn tx_start(&self) -> Map<int, Seq<char>> {
        tx_base(self.cxn)
    }

    pub fn new(cxn: rusqlite::Connection) -> (r: Repo)
        ensures
            r.rows() == table_rows(cxn),
            r.stamp() == i64::MIN,
            !r.rollback_failed(),
    {
        Repo { cxn, last_stamp: i64::MIN, rollback_failed: false }
    }

    /// Creates the table if it is absent; the rows stay as they are. Safe to
    /// call any number of times.
    pub fn init(&mut self) -> (r: Result<(), RepoError>)
        ensures
            final(self).stamp() == old(self).stamp(),
            match r {
                Ok(()) => final(self).rows() == old(self).rows(),
                Err(e) => e is RepositoryUnavailable,
            },
    {
        match create_table(&mut self.cxn) {
            Ok(()) => Ok(()),
            Err(e) => Err(unavailable(&e)),
        }
    }

    /// The present time, never before the last stamp handed out.
    fn next_stamp(&mut self) -> (t: Timestamp)
        ensures
            t == final(self).stamp(),
            t >= old(self).stamp(),
            final(self).rows() == old(self).rows(),
            final(self).tx_start() == old(self).tx_start(),
            final(self).rollback_failed() == old(self).rollback_failed(),
    {
        let now = clock_now();
        if now > self.last_stamp {
            self.last_stamp = now;
        }
        self.last_stamp
    }

    fn fetch(&self, id: u32, want_deleted: bool) -> (r: Result<Item, RepoError>)
        ensures
            fetch_outcome(self.rows(), id, want_deleted, r),
    {
        match read_row(&self.cxn, id as i64) {
            Ok(fetched) => select_visible(id, fetched, want_deleted),
            Err(e) => Err(unavailable(&e)),
        }
    }

    /// The active item with `id`.
    pub fn get(&self, id: u32) -> (r: Result<Item, RepoError>)
        ensures
            fetch_outcome(self.rows(), id, false, r),
    {
        self.fetch(id, false)
    }

    /// The soft-deleted item with `id`.
    pub fn get_deleted(&self, id: u32) -> (r: Result<Item, RepoError>)
        ensures
            fetch_outcome(self.rows(), id, true, r),
    {
        self.fetch(id, true)
    }

    /// Creates an item under a row id the table did not hold, stamped as
    /// created now, never modified and not deleted. Its id is larger than
    /// every row id the table held, unless the table held the largest row id
    /// SQLite allows. The row is inserted and written in one transaction; on
    /// failure the transaction is rolled back, and when that rollback
    /// succeeds the table is as it was.
    pub fn add(&mut self, title: &str, body: &str, important: bool, urgent: bool) -> (r: Result<Item, RepoError>)
        ensures
            final(self).stamp() >= old(self).stamp(),
            match r {
                Ok(it) => {
                    &&& it@ == (ItemView {
                        id: it.id,
                        title: title@,
                        body: body@,
                        important,
                        urgent,
                        created: final(self).stamp(),
                        modified: None,
                        deleted: None,
                    })
                    &&& it.id > 0
                    &&& !old(self).rows().contains_key(it.id as int)
                    &&& (old(self).rows().contains_key(i64::MAX as int) || forall|k: int|
                        #[trigger] old(self).rows().contains_key(k) ==> k < it.id)
                    &&& final(self).rows() == old(self).rows().insert(it.id as int, encoding(it@))
                    &&& !final(self).rollback_failed()
                },
                Err(e) => e is RepositoryUnavailable && (!final(self).rollback_failed() ==> final(self).rows()
                    == old(self).rows()),
            },
    {
        self.rollback_failed = false;
        if let Err(e) = begin(&mut self.cxn) {
            return Err(unavailable(&e));
        }
        let key = match insert_blank(&mut self.cxn) {
            Ok(key) => key,
            Err(e) => {
                self.abandon();
                return Err(unavailable(&e));
            },
        };
        let id = match item_id_of_row(key) {
            Some(id) => id,
            None => {
                self.abandon();
                return Err(RepoError::RepositoryUnavailable(String::from_str("row id out of the item id range")));
            },
        };
        let t = self.next_stamp();
        let item = Item::new(id, title, body, important, urgent, t);
        let text = item.serialize();
        if let Err(e) = write_row(&mut self.cxn, key, text.as_str()) {
            self.abandon();
            return Err(unavailable(&e));
        }
        if let Err(e) = commit(&mut self.cxn) {
            self.abandon();
            return Err(unavailable(&e));
        }
        Ok(item)
    }

    /// Rolls back the open transaction, noting when that fails.
    fn abandon(&mut self)
        ensures
            final(self).stamp() == old(self).stamp(),
            !final(self).rollback_failed() ==> final(self).rows() == old(self).tx_start(),
    {
        if rollback(&mut self.cxn).is_err() {
            self.rollback_failed = true;
        }
    }

    /// Whether the last `add` failed and could not roll back its
    /// transaction either, leaving the table in doubt.
    pub fn last_rollback_failed(&self) -> (r: bool)
        ensures
            r == self.rollback_failed(),
    {
        self.rollback_failed
    }

    fn scan(&self, want_deleted: bool) -> (r: Result<Vec<Item>, RepoError>)
        ensures
            scan_outcome(self.rows(), want_deleted, r),
    {
        let raw = match read_all(&self.cxn) {
            Ok(raw) => raw,
            Err(e) => {
                return Err(unavailable(&e));
            },
        };
        let ghost rows = self.rows();
        proof {
            lemma_rows_of(raw@);
            assert(rows_of(raw@) =~= rows) by {
                assert forall|k: int| #[trigger] rows_of(raw@).contains_key(k) <==> rows.contains_key(k) by {
                    if rows.contains_key(k) {
                        let j = choose|j: int| 0 <= j < raw.len() && raw[j].0 as int == k;
                        assert(rows_of(raw@).contains_key(raw@[j].0 as int));
                    }
                    if rows_of(raw@).contains_key(k) {
                        let j = choose|j: int| 0 <= j < raw.len() && raw@[j].0 as int == k;
                        assert(rows.contains_key(raw[j].0 as int));
                    }
                }
                assert forall|k: int| #[trigger] rows_of(raw@).contains_key(k) implies rows_of(raw@)[k] == rows[k] by {
                    let j = choose|j: int| 0 <= j < raw.len() && raw@[j].0 as int == k;
                    assert(rows.contains_key(raw[j].0 as int));
                }
            }
        }
        let r = select_items(&raw, want_deleted);
        proof {
            if r is Err && r->Err_0 is CorruptRecord {
                let t = r->Err_0->CorruptRecord_0;
                let j = choose|j: int|
                    0 <= j < raw.len() && #[trigger] corrupt_at(rows_of(raw@), raw@[j].0 as int) && t@
                        == raw@[j].1@;
                assert(corrupt_at(rows, raw@[j].0 as int) && t@ == rows[raw@[j].0 as int]);
            }
        }
        r
    }

    /// Every active item, in no promised order.
    pub fn all(&mut self) -> (r: Result<Vec<Item>, RepoError>)
        ensures
            final(self).rows() == old(self).rows(),
            final(self).stamp() == old(self).stamp(),
            scan_outcome(old(self).rows(), false, r),
    {
        self.scan(false)
    }

    /// Every soft-deleted item, in no promised order.
    pub fn deleted(&mut self) -> (r: Result<Vec<Item>, RepoError>)
        ensures
            final(self).rows() == old(self).rows(),
            final(self).stamp() == old(self).stamp(),
            scan_outcome(old(self).rows(), true, r),
    {
        self.scan(true)
    }

    /// Writes the item's record into the row of its id.
    fn store(&mut self, item: &Item) -> (r: Result<(), RepoError>)
        ensures
            final(self).stamp() == old(self).stamp(),
            match r {
                Ok(()) => old(self).rows().contains_key(item.id as int) && final(self).rows() == old(self).rows().insert(item.id as int, encoding(item@)),
                Err(RepoError::NotFound) => !old(self).rows().contains_key(item.id as int) && final(self).rows() == old(self).rows(),
                Err(RepoError::RepositoryUnavailable(_)) => true,
                Err(_) => false,
            },
    {
        let text = item.serialize();
        match write_row(&mut self.cxn, item.id as i64, text.as_str()) {
            Ok(n) => write_outcome(n),
            Err(e) => Err(unavailable(&e)),
        }
    }

    /// Overwrites the stored item with `item`'s id by `item`, stamped as
    /// modified now; the stamp is set on `item` too.
    pub fn update(&mut self, item: &mut Item) -> (r: Result<(), RepoError>)
        ensures
            final(self).stamp() >= old(self).stamp(),
            final(item)@ == old(item)@.touched(final(self).stamp()),
            match r {
                Ok(()) => old(self).rows().contains_key(old(item).id as int) && final(self).rows() == old(self).rows().insert(old(item).id as int, encoding(final(item)@)),
                Err(RepoError::NotFound) => !old(self).rows().contains_key(old(item).id as int) && final(self).rows() == old(self).rows(),
                Err(RepoError::RepositoryUnavailable(_)) => true,
                Err(_) => false,
            },
    {
        let t = self.next_stamp();
        item.mark_modified(t);
        self.store(item)
    }

    /// Soft-deletes the active item with `id`: its deletion and modification
    /// are stamped now.
    pub fn delete(&mut self, id: &u32) -> (r: Result<(), RepoError>)
        ensures
            final(self).stamp() >= old(self).stamp(),
            match r {
                Ok(()) => lookup(old(self).rows(), *id, false) is Some && final(self).rows() == old(self).rows().insert(
                    *id as int,
                    encoding(lookup(old(self).rows(), *id, false).unwrap().deleted_at(final(self).stamp())),
                ),
                Err(RepoError::NotFound) => lookup(old(self).rows(), *id, false) is None && !corrupt_at(old(self).rows(), *id as int) && final(self).rows() == old(self).rows(),
                Err(RepoError::CorruptRecord(raw)) => corrupt_at(old(self).rows(), *id as int) && raw@ == old(self).rows()[*id as int] && final(self).rows() == old(self).rows(),
                Err(RepoError::RepositoryUnavailable(_)) => true,
                Err(_) => false,
            },
    {
        match self.get(*id) {
            Ok(item) => {
                let mut item = item;
                let t = self.next_stamp();
                item.mark_deleted(t);
                item.mark_modified(t);
                self.store(&item)
            },
            Err(e) => Err(e),
        }
    }

    /// Restores the soft-deleted item with `id`: its deletion mark is cleared
    /// and its modification stamped now.
    pub fn restore(&mut self, id: &u32) -> (r: Result<(), RepoError>)
        ensures
            final(self).stamp() >= old(self).stamp(),
            match r {
                Ok(()) => lookup(old(self).rows(), *id, true) is Some && final(self).rows() == old(self).rows().insert(
                    *id as int,
                    encoding(lookup(old(self).rows(), *id, true).unwrap().restored_at(final(self).stamp())),
                ),
                Err(RepoError::NotFound) => lookup(old(self).rows(), *id, true) is None && !corrupt_at(old(self).rows(), *id as int) && final(self).rows() == old(self).rows(),
                Err(RepoError::CorruptRecord(raw)) => corrupt_at(old(self).rows(), *id as int) && raw@ == old(self).rows()[*id as int] && final(self).rows() == old(self).rows(),
                Err(RepoError::RepositoryUnavailable(_)) => true,
                Err(_) => false,
            },
    {
        match self.get_deleted(*id) {
            Ok(item) => {
                let mut item = item;
                let t = self.next_stamp();
                item.restore();
                item.mark_modified(t);
                self.store(&item)
            },
            Err(e) => Err(e),
        }
    }
}

// ----------------------------------------------------------------
// Laws

/// Ids handed out by successive successful `add` calls are pairwise
/// distinct: each add takes a row id the table did not hold and keeps every
/// row it found. `tables[k]` is the table before the `k`-th add, `ids[k]` the
/// id it returned and `texts[k]` the record it wrote.
pub proof fn lemma_add_ids_distinct(tables: Seq<Map<int, Seq<char>>>, ids: Seq<u32>, texts: Seq<Seq<char>>)
    requires
        tables.len() == ids.len() + 1,
        texts.len() == ids.len(),
        forall|k: int|
            0 <= k < ids.len() ==> !tables[k].contains_key(#[trigger] ids[k] as int) && tables[k + 1]
                == tables[k].insert(ids[k] as int, texts[k]),
    ensures
        forall|i: int, j: int| 0 <= i < j < ids.len() ==> ids[i] != ids[j],
{
    assert forall|i: int, j: int| 0 <= i < j < ids.len() implies ids[i] != ids[j] by {
        lemma_id_kept(tables, ids, texts, i, j);
    }
}

/// Ids handed out by successive successful `add` calls increase: each add
/// takes a row id above every row id the table held, when the table does
/// not hold the largest one SQLite allows, and keeps every row it found.
pub proof fn lemma_add_ids_increasing(tables: Seq<Map<int, Seq<char>>>, ids: Seq<u32>, texts: Seq<Seq<char>>)
    requires
        tables.len() == ids.len() + 1,
        texts.len() == ids.len(),
        forall|k: int|
            0 <= k < ids.len() ==> !tables[k].contains_key(#[trigger] ids[k] as int) && tables[k + 1]
                == tables[k].insert(ids[k] as int, texts[k]),
        forall|k: int, key: int| 0 <= k < ids.len() && #[trigger] tables[k].contains_key(key) ==> key < ids[k],
    ensures
        forall|i: int, j: int| 0 <= i < j < ids.len() ==> ids[i] < ids[j],
{
    assert forall|i: int, j: int| 0 <= i < j < ids.len() implies ids[i] < ids[j] by {
        lemma_id_kept(tables, ids, texts, i, j);
        assert(tables[j].contains_key(ids[i] as int));
    }
}

proof fn lemma_id_kept(tables: Seq<Map<int, Seq<char>>>, ids: Seq<u32>, texts: Seq<Seq<char>>, i: int, j: int)
    requires
        tables.len() == ids.len() + 1,
        texts.len() == ids.len(),
        forall|k: int|
            0 <= k < ids.len() ==> !tables[k].contains_key(#[trigger] ids[k] as int) && tables[k + 1]
                == tables[k].insert(ids[k] as int, texts[k]),
        0 <= i < j <= ids.len(),
    ensures
        tables[j].contains_key(ids[i] as int),
    decreases j - i,
{
    if j > i + 1 {
        lemma_id_kept(tables, ids, texts, i, j - 1);
        assert(tables[j] == tables[j - 1].insert(ids[j - 1] as int, texts[j - 1]));
    } else {
        assert(tables[i + 1] == tables[i].insert(ids[i] as int, texts[i]));
    }
}

/// Visibility partitions the items: an item listed as active is not found by
/// a fetch of deleted items, and an item listed as deleted is not found by a
/// fetch of active ones; such a fetch can only answer `NotFound` (or fail in
/// the engine). `v` lists the items of the visibility other than
/// `fetch_deleted`'s.
pub proof fn lemma_visibility_partition(rows: Map<int, Seq<char>>, v: Seq<ItemView>, fetch_deleted: bool)
    requires
        listing(rows, v, !fetch_deleted),
    ensures
        forall|i: int|
            0 <= i < v.len() ==> lookup(rows, #[trigger] v[i].id, fetch_deleted) is None && !corrupt_at(
                rows,
                v[i].id as int,
            ),
        forall|i: int, r: Result<Item, RepoError>|
            0 <= i < v.len() && #[trigger] fetch_outcome(rows, v[i].id, fetch_deleted, r) ==> (r == Err::<
                Item,
                RepoError,
            >(RepoError::NotFound) || r is Err && r->Err_0 is RepositoryUnavailable),
{
    assert forall|i: int| 0 <= i < v.len() implies lookup(rows, #[trigger] v[i].id, fetch_deleted) is None
        && !corrupt_at(rows, v[i].id as int) by {
        assert(lookup(rows, v[i].id, !fetch_deleted) == Some(v[i]));
    }
}

/// Adding an item, deleting it and restoring it gives back the same item:
/// same id, texts, flags and creation time, not deleted, and modified at the
/// restore, which is no earlier than the deletion. `rows0` is the table
/// before the add; `rows1`, `rows2` and `rows3` follow the add of `x`, the
/// delete stamped `t1` and the restore stamped `t2`, as their contracts state.
pub proof fn lemma_delete_restore(
    rows0: Map<int, Seq<char>>,
    rows1: Map<int, Seq<char>>,
    rows2: Map<int, Seq<char>>,
    rows3: Map<int, Seq<char>>,
    x: ItemView,
    t1: Timestamp,
    t2: Timestamp,
)
    requires
        x.modified is None,
        x.deleted is None,
        rows1 == rows0.insert(x.id as int, encoding(x)),
        lookup(rows1, x.id, false) is Some,
        rows2 == rows1.insert(x.id as int, encoding(lookup(rows1, x.id, false).unwrap().deleted_at(t1))),
        lookup(rows2, x.id, true) is Some,
        rows3 == rows2.insert(x.id as int, encoding(lookup(rows2, x.id, true).unwrap().restored_at(t2))),
        t1 <= t2,
    ensures
        lookup(rows1, x.id, false) == Some(x),
        lookup(rows2, x.id, true) == Some(x.deleted_at(t1)),
        lookup(rows2, x.id, false) is None,
        lookup(rows3, x.id, true) is None,
        lookup(rows3, x.id, false) == Some(ItemView { modified: Some(t2), ..x }),
        lookup(rows3, x.id, false).unwrap().modified.unwrap() >= lookup(rows2, x.id, true).unwrap().modified.unwrap(),
{
    lemma_round_trip(x);
    lemma_round_trip(x.deleted_at(t1));
    lemma_round_trip(x.deleted_at(t1).restored_at(t2));
    assert(x.deleted_at(t1).restored_at(t2) == ItemView { modified: Some(t2), ..x });
}

/// Deleting an item twice is rejected: after a successful delete the item is
/// neither active nor corrupt, so a second delete can only answer `NotFound`
/// (or fail in the engine).
pub proof fn lemma_double_delete(rows: Map<int, Seq<char>>, rows2: Map<int, Seq<char>>, id: u32, t: Timestamp)
    requires
        lookup(rows, id, false) is Some,
        rows2 == rows.insert(id as int, encoding(lookup(rows, id, false).unwrap().deleted_at(t))),
    ensures
        lookup(rows2, id, false) is None,
        !corrupt_at(rows2, id as int),
{
    lemma_round_trip(lookup(rows, id, false).unwrap().deleted_at(t));
}

} // verus!
