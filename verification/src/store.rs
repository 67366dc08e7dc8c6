use vstd::prelude::*;
use crate::aggregate::{aggregate, aggregate_post, aggregatable};
use crate::export::{lemma_aggregate_rows_wf, rows_wf};
use crate::models::{History, Record};

verus! {

#[verifier::external_type_specification]
#[verifier::external_body]
pub struct ExConnection(rusqlite::Connection);

/// Relies on rusqlite's `Connection::open_in_memory`: opens a fresh private
/// database; `None` on failure.
#[verifier::external_body]
pub fn establish_connection() -> (r: Option<rusqlite::Connection>) {
    match rusqlite::Connection::open_in_memory() {
        Ok(conn) => Some(conn),
        Err(_) => None,
    }
}

/// Relies on rusqlite's `Connection::execute` running `CREATE TABLE IF NOT
/// EXISTS` for the record table: true exactly on success.
#[verifier::external_body]
fn create_record_table(conn: &rusqlite::Connection) -> (r: bool) {
    let result = conn.execute(
        "CREATE TABLE IF NOT EXISTS record (
            id INTEGER PRIMARY KEY,
            created_at DATETIME NOT NULL,
            duration INTEGER NOT NULL
        )",
        [],
    );
    result.is_ok()
}

/// Creates the record table if it is absent. Idempotent, with no other side
/// effect; what it returns depends only on the store.
pub fn run_migrations(conn: &rusqlite::Connection) -> (r: Option<()>) {
    if create_record_table(conn) {
        Some(())
    } else {
        None
    }
}

/// Relies on rusqlite's `Connection::execute` with an `INSERT` statement:
/// persists one record's `created_at` and `duration`, letting the store
/// assign the identifier; `Some` exactly on success. A duration beyond the
/// store's signed integer range fails the insert.
#[verifier::external_body]
pub fn create_record(conn: &rusqlite::Connection, record: &Record) -> (r: Option<()>) {
    let duration = match i64::try_from(record.duration) {
        Ok(d) => d,
        Err(_) => return None,
    };
    let result = conn.execute(
        "INSERT INTO record (created_at, duration) VALUES (?1, ?2)",
        (&record.created_at, &duration),
    );
    match result {
        Ok(_) => Some(()),
        Err(_) => None,
    }
}

/// Relies on rusqlite's `Connection::execute` with a `DELETE` statement:
/// removes the record with the given identifier; `Some` exactly on success.
#[verifier::external_body]
pub fn remove_record(conn: &rusqlite::Connection, record: &Record) -> (r: Option<()>) {
    let result = conn.execute("DELETE FROM record WHERE id = ?1", (&record.id,));
    match result {
        Ok(_) => Some(()),
        Err(_) => None,
    }
}

/// Relies on rusqlite's `Connection::prepare` and `Statement::query_map`:
/// reads every stored record; a connection or row-decode failure degrades to
/// an empty record set.
#[verifier::external_body]
fn query_all_records(conn: &rusqlite::Connection) -> (r: Vec<Record>) {
    let rows = conn.prepare("SELECT id, created_at, duration FROM record").and_then(|mut stmt| {
        stmt.query_map([], |row| {
            let duration = u64::try_from(row.get::<_, i64>(2)?).map_err(|e| {
                rusqlite::Error::FromSqlConversionFailure(2, rusqlite::types::Type::Integer, e.into())
            })?;
            Ok(Record { id: row.get(0)?, duration, created_at: row.get(1)? })
        })?.collect::<Result<Vec<Record>, rusqlite::Error>>()
    });
    rows.unwrap_or_default()
}

/// Reads the full record set from the store and aggregates it into the
/// per-date history. Whatever the store holds, the result is a faithful
/// aggregate of some record set, with malformed store contents degrading to
/// an empty history.
pub fn find_all_records(conn: &rusqlite::Connection) -> (out: Vec<History>)
    ensures
        exists|rs: Seq<Record>| #[trigger] aggregate_post(out@, rs),
        rows_wf(out@),
{
    let records = query_all_records(conn);
    let out = aggregate(&records);
    proof {
        assert(aggregate_post(out@, records@));
        if aggregatable(records@) {
            lemma_aggregate_rows_wf(out@, records@);
        } else {
            assert(out@.len() == 0);
        }
    }
    out
}

} // verus!
