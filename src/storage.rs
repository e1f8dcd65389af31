//! The SQLite table the repository keeps its items in, and the clock it
//! stamps them with.
//!
//! The table `items` has the engine's row id and one text column holding an
//! item's record. What a connection holds there is named by `table_rows`;
//! each statement the repository runs has one wrapper, whose contract says
//! what the statement does to those rows. `tx_base` names the rows as they
//! stood when the connection last opened a transaction, which a rollback
//! returns to.
//!
//! The model assumes this connection is the table's only writer. A
//! maintenance command run on the same database file from outside the
//! process, or a second connection, can change the rows between two
//! statements; `delete` and `restore` read and then write outside a
//! transaction, so such a writer can race with them.
use rusqlite::OptionalExtension;
use vstd::prelude::*;

use crate::item::Timestamp;

verus! {

#[verifier::external_type_specification]
#[verifier::external_body]
pub struct ExConnection(rusqlite::Connection);

#[verifier::external_type_specification]
#[verifier::external_body]
pub struct ExSqlError(rusqlite::Error);

/// The rows of the `items` table as the connection sees them: row id to
/// stored record.
pub uninterp spec fn table_rows(c: rusqlite::Connection) -> Map<int, Seq<char>>;

/// The rows of the `items` table as they stood when the connection's latest
/// `BEGIN` ran.
pub uninterp spec fn tx_base(c: rusqlite::Connection) -> Map<int, Seq<char>>;

/// Relies on `Connection::execute` with `CREATE TABLE IF NOT EXISTS`: an
/// existing table and its rows are left as they are.
#[verifier::external_body]
pub(crate) fn create_table(c: &mut rusqlite::Connection) -> (r: Result<(), rusqlite::Error>)
    ensures
        r is Ok ==> table_rows(*final(c)) == table_rows(*old(c)),
{
    c.execute("CREATE TABLE IF NOT EXISTS items (item BLOB NOT NULL)", ()).map(|_| ())
}

/// Relies on `Connection::execute_batch` with `BEGIN`: opening a transaction
/// changes no row, and the rows it starts from are the present ones.
#[verifier::external_body]
pub(crate) fn begin(c: &mut rusqlite::Connection) -> (r: Result<(), rusqlite::Error>)
    ensures
        table_rows(*final(c)) == table_rows(*old(c)),
        r is Ok ==> tx_base(*final(c)) == table_rows(*old(c)),
{
    c.execute_batch("BEGIN")
}

/// Relies on `Connection::execute_batch` with `COMMIT`: the rows the
/// connection sees stay as they are; they become durable. It opens no
/// transaction.
#[verifier::external_body]
pub(crate) fn commit(c: &mut rusqlite::Connection) -> (r: Result<(), rusqlite::Error>)
    ensures
        tx_base(*final(c)) == tx_base(*old(c)),
        r is Ok ==> table_rows(*final(c)) == table_rows(*old(c)),
{
    c.execute_batch("COMMIT")
}

/// Relies on `Connection::execute_batch` with `ROLLBACK`: when it succeeds,
/// the open transaction's changes are dropped and the rows are those the
/// transaction started from.
#[verifier::external_body]
pub(crate) fn rollback(c: &mut rusqlite::Connection) -> (r: Result<(), rusqlite::Error>)
    ensures
        r is Ok ==> table_rows(*final(c)) == tx_base(*old(c)),
{
    c.execute_batch("ROLLBACK")
}

/// Relies on `Connection::query_row` with `INSERT ... RETURNING rowid`: a new
/// row with an empty record, under a row id the table did not hold. SQLite
/// picks one more than the largest row id, unless that largest id is
/// `i64::MAX`, in which case it picks an unused one. A statement leaves the
/// start of the open transaction as it was.
#[verifier::external_body]
pub(crate) fn insert_blank(c: &mut rusqlite::Connection) -> (r: Result<i64, rusqlite::Error>)
    ensures
        tx_base(*final(c)) == tx_base(*old(c)),
        r matches Ok(id) ==> !table_rows(*old(c)).contains_key(id as int) && table_rows(*final(c))
            == table_rows(*old(c)).insert(id as int, Seq::empty()) && (table_rows(*old(c)).contains_key(
            i64::MAX as int,
        ) || forall|k: int| #[trigger] table_rows(*old(c)).contains_key(k) ==> k < id),
{
    c.query_row("INSERT INTO items (item) VALUES ('') RETURNING rowid", (), |row| row.get(0))
}

/// Relies on `Connection::execute` with `UPDATE ... WHERE rowid = ?`: the row's
/// record is replaced, and the count of changed rows is returned; no row
/// changes when the id is absent. A statement leaves the start of the open
/// transaction as it was.
#[verifier::external_body]
pub(crate) fn write_row(c: &mut rusqlite::Connection, id: i64, text: &str) -> (r: Result<usize, rusqlite::Error>)
    ensures
        tx_base(*final(c)) == tx_base(*old(c)),
        r matches Ok(n) ==> if table_rows(*old(c)).contains_key(id as int) {
            n == 1 && table_rows(*final(c)) == table_rows(*old(c)).insert(id as int, text@)
        } else {
            n == 0 && table_rows(*final(c)) == table_rows(*old(c))
        },
{
    c.execute("UPDATE items SET item = ?1 WHERE rowid = ?2", (text, id))
}

/// Relies on `Connection::query_row` with `SELECT ... WHERE rowid = ?` and
/// `OptionalExtension::optional`: the row's record, or `None` when the id is
/// absent.
#[verifier::external_body]
pub(crate) fn read_row(c: &rusqlite::Connection, id: i64) -> (r: Result<Option<String>, rusqlite::Error>)
    ensures
        r matches Ok(Some(s)) ==> table_rows(*c).contains_key(id as int) && table_rows(*c)[id as int]
            == s@,
        r matches Ok(None) ==> !table_rows(*c).contains_key(id as int),
{
    c.query_row("SELECT item FROM items WHERE rowid = ?1", (id,), |row| row.get(0)).optional()
}

/// Relies on `Connection::prepare`, `Statement::query_map` and collecting the
/// rows of `SELECT rowid, item`: every row once, in no promised order.
#[verifier::external_body]
pub(crate) fn read_all(c: &rusqlite::Connection) -> (r: Result<Vec<(i64, String)>, rusqlite::Error>)
    ensures
        r matches Ok(v) ==> {
            &&& forall|i: int|
                0 <= i < v.len() ==> table_rows(*c).contains_key(#[trigger] v[i].0 as int) && table_rows(
                    *c,
                )[v[i].0 as int] == v[i].1@
            &&& forall|id: int|
                #[trigger] table_rows(*c).contains_key(id) ==> exists|i: int|
                    0 <= i < v.len() && v[i].0 as int == id
            &&& forall|i: int, j: int| 0 <= i < j < v.len() ==> v[i].0 != v[j].0
        },
{
    let mut stmt = c.prepare("SELECT rowid, item FROM items")?;
    let rows = stmt.query_map((), |row| Ok((row.get(0)?, row.get(1)?)))?;
    let all = rows.collect();
    all
}

/// Relies on the `Display` text of `rusqlite::Error`.
#[verifier::external_body]
pub(crate) fn describe(e: &rusqlite::Error) -> (r: String) {
    format!("{}", e)
}

/// Relies on `chrono::Local::now` and `DateTime::timestamp`: the present
/// time in seconds since the Unix epoch.
#[verifier::external_body]
pub(crate) fn clock_now() -> (t: Timestamp) {
    chrono::Local::now().timestamp()
}

} // verus!
