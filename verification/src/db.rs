//! The database model, the connection handle, and the migration engine.
//!
//! The real store is a single embedded-database file. Here its content is
//! modelled explicitly: a meta table mapping each logical table name to its
//! stored schema version, and a directory of named tables whose rows are a
//! primary key plus the remaining columns. The host program keeps this model
//! in step with the file by executing one statement per verified operation.
use crate::json::{json_clone, json_eq, JsonValue};
use crate::kv::{kfind, kget, khas, kidx, kupsert, kwf, Keyed};
use crate::StoreError;
use vstd::prelude::*;

verus! {

broadcast use vstd::seq::group_seq_axioms, vstd::std_specs::vec::group_vec_axioms;

/// One persisted row: the primary key plus the remaining columns in order.
#[derive(Debug)]
pub struct Row {
    pub key: String,
    pub fields: Vec<JsonValue>,
}

impl Keyed for Row {
    open spec fn key_view(&self) -> Seq<char> {
        self.key@
    }

    fn key_ref(&self) -> (r: &str) {
        self.key.as_str()
    }
}

/// The rows of one table.
#[derive(Debug)]
pub struct TableData {
    pub rows: Vec<Row>,
}

impl TableData {
    /// A freshly created, empty table.
    pub fn empty() -> (r: TableData)
        ensures
            r.rows@.len() == 0,
    {
        TableData { rows: Vec::new() }
    }
}

impl Keyed for (String, i64) {
    open spec fn key_view(&self) -> Seq<char> {
        self.0@
    }

    fn key_ref(&self) -> (r: &str) {
        self.0.as_str()
    }
}

impl Keyed for (String, TableData) {
    open spec fn key_view(&self) -> Seq<char> {
        self.0@
    }

    fn key_ref(&self) -> (r: &str) {
        self.0.as_str()
    }
}

/// The modelled content of the database file.
#[derive(Debug)]
pub struct Database {
    /// Stored schema version per logical table name.
    pub meta: Vec<(String, i64)>,
    /// Live and archival tables, by name.
    pub tables: Vec<(String, TableData)>,
}

/// Distinct meta names, distinct table names.
pub open spec fn db_wf(db: Database) -> bool {
    &&& kwf(db.meta@)
    &&& kwf(db.tables@)
}

/// The stored schema version for a table name; absence means 0 (the table
/// was never created, or pre-dates versioning).
pub open spec fn version_of(meta: Seq<(String, i64)>, name: Seq<char>) -> i64 {
    match kget(meta, name) {
        Some(e) => e.1,
        None => 0,
    }
}

/// The rows of the named table, if it exists.
pub open spec fn table_rows(db: Database, name: Seq<char>) -> Option<Seq<Row>> {
    match kget(db.tables@, name) {
        Some(e) => Some(e.1.rows@),
        None => None,
    }
}

impl Database {
    /// The content of a database file that was just created.
    pub fn empty() -> (r: Database)
        ensures
            r.meta@.len() == 0,
            r.tables@.len() == 0,
            db_wf(r),
    {
        Database { meta: Vec::new(), tables: Vec::new() }
    }
}

/// Row equivalence: same key and the same column content.
pub open spec fn row_eq(a: Row, b: Row) -> bool {
    &&& a.key@ == b.key@
    &&& a.fields@.len() == b.fields@.len()
    &&& forall|i: int| 0 <= i < a.fields@.len() ==> json_eq(a.fields@[i], b.fields@[i])
}

/// Table equivalence: the same rows in the same order.
pub open spec fn table_eq(a: TableData, b: TableData) -> bool {
    &&& a.rows@.len() == b.rows@.len()
    &&& forall|i: int| 0 <= i < a.rows@.len() ==> row_eq(a.rows@[i], b.rows@[i])
}

/// Database equivalence: the same meta entries and the same tables.
///
/// This is content equivalence after decoding, the sense in which an
/// exported snapshot equals the database it was taken from.
pub open spec fn db_eq(a: Database, b: Database) -> bool {
    &&& a.meta@.len() == b.meta@.len()
    &&& forall|i: int|
        0 <= i < a.meta@.len() ==> a.meta@[i].0@ == b.meta@[i].0@ && a.meta@[i].1 == b.meta@[i].1
    &&& a.tables@.len() == b.tables@.len()
    &&& forall|i: int|
        0 <= i < a.tables@.len() ==> a.tables@[i].0@ == b.tables@[i].0@ && table_eq(
            a.tables@[i].1,
            b.tables@[i].1,
        )
}

/// An equivalent copy of one row.
pub fn row_clone(r: &Row) -> (out: Row)
    ensures
        row_eq(out, *r),
{
    let mut fields: Vec<JsonValue> = Vec::new();
    let mut i: usize = 0;
    while i < r.fields.len()
        invariant
            i <= r.fields@.len(),
            fields@.len() == i,
            forall|j: int| 0 <= j < i ==> json_eq(fields@[j], r.fields@[j]),
        decreases r.fields@.len() - i,
    {
        fields.push(json_clone(&r.fields[i]));
        i += 1;
    }
    Row { key: r.key.clone(), fields }
}

/// An equivalent copy of one table.
pub fn table_clone(t: &TableData) -> (out: TableData)
    ensures
        table_eq(out, *t),
{
    let mut rows: Vec<Row> = Vec::new();
    let mut i: usize = 0;
    while i < t.rows.len()
        invariant
            i <= t.rows@.len(),
            rows@.len() == i,
            forall|j: int| 0 <= j < i ==> row_eq(rows@[j], t.rows@[j]),
        decreases t.rows@.len() - i,
    {
        rows.push(row_clone(&t.rows[i]));
        i += 1;
    }
    TableData { rows }
}

/// An equivalent copy of the whole database content.
pub fn db_clone(db: &Database) -> (out: Database)
    ensures
        db_eq(out, *db),
{
    let mut meta: Vec<(String, i64)> = Vec::new();
    let mut i: usize = 0;
    while i < db.meta.len()
        invariant
            i <= db.meta@.len(),
            meta@.len() == i,
            forall|j: int|
                0 <= j < i ==> meta@[j].0@ == db.meta@[j].0@ && meta@[j].1 == db.meta@[j].1,
        decreases db.meta@.len() - i,
    {
        meta.push((db.meta[i].0.clone(), db.meta[i].1));
        i += 1;
    }
    let mut tables: Vec<(String, TableData)> = Vec::new();
    let mut j: usize = 0;
    while j < db.tables.len()
        invariant
            j <= db.tables@.len(),
            tables@.len() == j,
            forall|m: int|
                0 <= m < j ==> tables@[m].0@ == db.tables@[m].0@ && table_eq(
                    tables@[m].1,
                    db.tables@[m].1,
                ),
        decreases db.tables@.len() - j,
    {
        let copy = table_clone(&db.tables[j].1);
        tables.push((db.tables[j].0.clone(), copy));
        j += 1;
    }
    Database { meta, tables }
}

/// Whether a connection to the database file has been opened or closed.
#[derive(Clone, Copy, Debug, PartialEq, Eq, Structural)]
pub enum DbState {
    /// `init_db` has not run yet.
    Start,
    /// The pool is live.
    Open,
    /// The pool was flushed and released.
    Closed,
}

/// The process-wide connection handle together with the file it manages.
#[derive(Debug)]
pub struct DbHandle {
    pub state: DbState,
    /// The content of the database file.
    pub data: Database,
    /// The backup file written by the last import, if any.
    pub backup: Option<Database>,
}

impl DbHandle {
    /// A process that has not touched the database yet; `file` is whatever
    /// the database file currently holds (empty when just created).
    pub fn new(file: Database) -> (r: DbHandle)
        ensures
            r.state is Start,
            r.data == file,
            r.backup is None,
    {
        DbHandle { state: DbState::Start, data: file, backup: None }
    }
}

/// Open the pooled connection. Fails with `AlreadyInitialized` when called
/// twice in the process lifetime: the handle is set exactly once.
pub fn init_db(h: &mut DbHandle) -> (r: Result<(), StoreError>)
    ensures
        final(h).data == old(h).data,
        final(h).backup == old(h).backup,
        match r {
            Ok(()) => old(h).state is Start && final(h).state is Open,
            Err(e) => e == StoreError::AlreadyInitialized && !(old(h).state is Start)
                && final(h).state == old(h).state,
        },
{
    match h.state {
        DbState::Start => {
            h.state = DbState::Open;
            Ok(())
        },
        _ => Err(StoreError::AlreadyInitialized),
    }
}

/// The live database content, or `NotInitialized` before `init_db`.
pub fn get_db(h: &DbHandle) -> (r: Result<&Database, StoreError>)
    ensures
        match r {
            Ok(d) => !(h.state is Start) && *d == h.data,
            Err(e) => e == StoreError::NotInitialized && h.state is Start,
        },
{
    match h.state {
        DbState::Start => Err(StoreError::NotInitialized),
        _ => Ok(&h.data),
    }
}

/// Flush and release the pool. Idempotent, and a no-op when never opened.
pub fn close_db(h: &mut DbHandle) -> (r: Result<(), StoreError>)
    ensures
        r is Ok,
        final(h).data == old(h).data,
        final(h).backup == old(h).backup,
        final(h).state == if old(h).state is Open {
            DbState::Closed
        } else {
            old(h).state
        },
{
    if let DbState::Open = h.state {
        h.state = DbState::Closed;
    }
    Ok(())
}

/// Replace the database file with `source`: back up the current file, close
/// the live connection, swap the file in, and reopen. The host must perform
/// the file steps in exactly this order, since an open connection holding
/// journal side-files prevents safe replacement.
pub fn import(h: &mut DbHandle, source: Database) -> (r: Result<(), StoreError>)
    ensures
        r is Ok,
        final(h).state is Open,
        final(h).data == source,
        final(h).backup == Some(old(h).data),
{
    let mut incoming = source;
    core::mem::swap(&mut h.data, &mut incoming);
    h.backup = Some(incoming);
    h.state = DbState::Open;
    Ok(())
}

/// A consistent snapshot of the live database: checkpoint, then back up
/// into the destination file. Fails before `init_db` and after `close_db`.
pub fn export(h: &DbHandle) -> (r: Result<Database, StoreError>)
    ensures
        match r {
            Ok(snapshot) => h.state is Open && db_eq(snapshot, h.data),
            Err(e) => !(h.state is Open) && e == if h.state is Start {
                StoreError::NotInitialized
            } else {
                StoreError::QueryFailure
            },
        },
{
    match h.state {
        DbState::Start => Err(StoreError::NotInitialized),
        DbState::Closed => Err(StoreError::QueryFailure),
        DbState::Open => Ok(db_clone(&h.data)),
    }
}

/// Exporting and importing the export restores an equivalent database: the
/// snapshot is equivalent to the pre-export content, and an import installs
/// its source unchanged, so the imported state is equivalent to the
/// pre-export state.
pub proof fn lemma_export_import_round_trip(
    before: Database,
    snapshot: Database,
    after: Database,
)
    requires
        db_eq(snapshot, before),
        after == snapshot,
    ensures
        db_eq(after, before),
{
}

/// Create the meta table when it does not exist yet. In this model the meta
/// table always exists (an empty one reads version 0 for every name), so the
/// statement is the identity on the content.
pub fn init_meta(db: &mut Database) -> (r: Result<(), StoreError>)
    ensures
        r is Ok,
        *final(db) == *old(db),
{
    Ok(())
}

/// The stored version for this table name; absence means version 0.
pub fn get_version(db: &Database, name: &str) -> (r: Result<i64, StoreError>)
    ensures
        r == Ok::<i64, StoreError>(version_of(db.meta@, name@)),
{
    match kfind(&db.meta, name) {
        Some(i) => Ok(db.meta[i].1),
        None => Ok(0),
    }
}

/// Record `value` as the stored version for this table name (upsert).
pub fn set_version(db: &mut Database, name: &str, value: i64) -> (r: Result<
    (),
    StoreError,
>)
    ensures
        r is Ok,
        version_of(final(db).meta@, name@) == value,
        forall|n: Seq<char>| n != name@ ==> version_of(final(db).meta@, n) == version_of(
            old(db).meta@,
            n,
        ),
        kwf(old(db).meta@) ==> kwf(final(db).meta@),
        final(db).tables == old(db).tables,
{
    let entry = (name.to_owned(), value);
    proof {
        assert(entry.key_view() == name@);
    }
    kupsert(&mut db.meta, entry);
    Ok(())
}

/// Replacing the data of one table, keeping its name, leaves every other
/// table unchanged and the directory well-formed.
pub proof fn lemma_tables_replace(
    orig: Seq<(String, TableData)>,
    now: Seq<(String, TableData)>,
    i: int,
)
    requires
        kwf(orig),
        0 <= i < orig.len(),
        now.len() == orig.len(),
        forall|j: int| 0 <= j < orig.len() && j != i ==> now[j] == orig[j],
        now[i].0@ == orig[i].0@,
    ensures
        kwf(now),
        kget(now, orig[i].0@) == Some(now[i]),
        forall|n: Seq<char>| n != orig[i].0@ ==> kget(now, n) == kget(orig, n),
{
    let key = orig[i].0@;
    assert forall|j: int| 0 <= j < orig.len() implies now[j].key_view() == orig[j].key_view() by {}
    assert forall|n: Seq<char>| true implies kidx(now, n) == kidx(orig, n) by {
        crate::kv::lemma_kidx_same_keys(now, orig, n);
    }
    crate::kv::lemma_kidx(orig, key);
    assert(kidx(orig, key) == i) by {
        if kidx(orig, key) < i {
            assert(orig[kidx(orig, key)].key_view() == key);
        }
    }
    assert forall|m: int, n: int| 0 <= m < n < now.len() implies now[m].key_view()
        != now[n].key_view() by {}
    assert forall|n: Seq<char>| n != key implies kget(now, n) == kget(orig, n) by {
        crate::kv::lemma_kidx(orig, n);
        if kidx(orig, n) >= 0 {
            assert(orig[kidx(orig, n)].key_view() == n);
            assert(kidx(orig, n) != i);
            assert(now[kidx(orig, n)] == orig[kidx(orig, n)]);
        }
    }
}

/// The rows of the named table, or no rows when it does not exist.
pub open spec fn prior_rows(db: Database, name: Seq<char>) -> Seq<Row> {
    match table_rows(db, name) {
        Some(rs) => rs,
        None => Seq::empty(),
    }
}

/// The capability each logical table implements: a stable name, a target
/// schema version, the statement that creates the current shape, and a data
/// migration hook invoked with the archival rows during an upgrade.
pub trait TableSpec {
    /// The stable table name.
    spec fn name_spec(&self) -> Seq<char>;

    /// The target schema version, monotonically increasing across releases.
    spec fn latest_spec(&self) -> i64;

    /// Whether the migration hook accepts these archival rows.
    spec fn migrate_ok(&self, old_rows: Seq<Row>) -> bool;

    /// The rows the migration hook carries into the fresh table.
    spec fn migrate_model(&self, old_rows: Seq<Row>) -> Seq<Row>;

    fn name(&self) -> (r: String)
        ensures
            r@ == self.name_spec(),
    ;

    fn latest(&self) -> (r: i64)
        ensures
            r == self.latest_spec(),
    ;

    /// The text of the statement that creates the table in its current
    /// shape.
    spec fn create_stmt_spec(&self) -> Seq<char>;

    /// The statement that creates the table in its current shape, for the
    /// host to execute verbatim.
    fn create_stmt(&self) -> (r: String)
        ensures
            r@ == self.create_stmt_spec(),
    ;

    /// Selectively copy or transform rows from the archival table into the
    /// freshly created one. Tables with no migration needs leave it empty.
    fn migrate_data(&self, old_rows: &TableData, fresh: &mut TableData) -> (r: Result<
        (),
        StoreError,
    >)
        requires
            old(fresh).rows@.len() == 0,
        ensures
            r is Ok <==> self.migrate_ok(old_rows.rows@),
            r is Ok ==> final(fresh).rows@ == self.migrate_model(old_rows.rows@),
    ;
}

/// Evaluate one table's migration state machine, once at startup before the
/// table's first use: read the stored version; when it already equals the
/// target, do nothing; otherwise rename any existing table to the archival
/// name, create the current shape, run the table's data-migration hook, and
/// record the new version. A hook failure rolls the whole upgrade back,
/// leaving the stored version unchanged.
///
/// The host picks `archival_name` (the table name with a timestamp suffix);
/// it must not collide with an existing table.
pub fn check_latest<T: TableSpec>(table: &T, db: &mut Database, archival_name: &str) -> (r:
    Result<(), StoreError>)
    requires
        db_wf(*old(db)),
        archival_name@ != table.name_spec(),
        !khas(old(db).tables@, archival_name@),
    ensures
        db_wf(*final(db)),
        r is Ok <==> (version_of(old(db).meta@, table.name_spec()) == table.latest_spec()
            || table.migrate_ok(prior_rows(*old(db), table.name_spec()))),
        !(r is Ok) ==> final(db).meta@ == old(db).meta@ && final(db).tables@ == old(
            db,
        ).tables@,
        r is Ok ==> version_of(final(db).meta@, table.name_spec()) == table.latest_spec(),
        r is Ok && version_of(old(db).meta@, table.name_spec()) == table.latest_spec()
            ==> *final(db) == *old(db),
        r is Ok && version_of(old(db).meta@, table.name_spec()) != table.latest_spec() ==> {
            &&& table_rows(*final(db), table.name_spec()) == Some(
                table.migrate_model(prior_rows(*old(db), table.name_spec())),
            )
            &&& khas(old(db).tables@, table.name_spec()) ==> table_rows(
                *final(db),
                archival_name@,
            ) == Some(prior_rows(*old(db), table.name_spec()))
            &&& !khas(old(db).tables@, table.name_spec()) ==> !khas(
                final(db).tables@,
                archival_name@,
            )
            &&& forall|n: Seq<char>|
                n != table.name_spec() && n != archival_name@ ==> kget(final(db).tables@, n)
                    == kget(old(db).tables@, n)
            &&& forall|n: Seq<char>|
                n != table.name_spec() ==> version_of(final(db).meta@, n) == version_of(
                    old(db).meta@,
                    n,
                )
        },
{
    let ghost g0 = *db;
    let ghost nm_v = table.name_spec();
    match init_meta(db) {
        Ok(()) => {},
        Err(e) => {
            return Err(e);
        },
    }
    let nm = table.name();
    let cur = match get_version(db, nm.as_str()) {
        Ok(v) => v,
        Err(e) => {
            return Err(e);
        },
    };
    let latest = table.latest();
    if cur == latest {
        return Ok(());
    }
    let _create = table.create_stmt();
    match kfind(&db.tables, nm.as_str()) {
        Some(i) => {
            proof {
                crate::kv::lemma_kidx(g0.tables@, nm_v);
            }
            let pair = db.tables.remove(i);
            let old_name = pair.0;
            let old_data = pair.1;
            let mut fresh = TableData::empty();
            let hook = table.migrate_data(&old_data, &mut fresh);
            match hook {
                Ok(()) => {
                    db.tables.insert(i, (archival_name.to_owned(), old_data));
                    let ghost g2 = *db;
                    proof {
                        assert(g2.tables@ =~= g0.tables@.update(i as int, g2.tables@[i as int]));
                        assert(g2.tables@[i as int].key_view() == archival_name@);
                        crate::kv::lemma_kidx(g2.tables@, archival_name@);
                        crate::kv::lemma_kidx(g2.tables@, nm_v);
                        assert forall|n: Seq<char>| n != nm_v && n != archival_name@ implies kget(
                            g2.tables@,
                            n,
                        ) == kget(g0.tables@, n) by {
                            crate::kv::lemma_kidx_update(g0.tables@, g2.tables@, i as int, n);
                        }
                        assert(kidx(g2.tables@, archival_name@) == i as int) by {
                            crate::kv::lemma_kidx(g0.tables@, archival_name@);
                            if kidx(g2.tables@, archival_name@) < i as int {
                                assert(g2.tables@[kidx(g2.tables@, archival_name@)] == g0.tables@[
                                    kidx(g2.tables@, archival_name@)
                                ]);
                            }
                        }
                        assert(kidx(g2.tables@, nm_v) == -1) by {
                            if kidx(g2.tables@, nm_v) >= 0 {
                                let m = kidx(g2.tables@, nm_v);
                                assert(m != i as int);
                                assert(g2.tables@[m] == g0.tables@[m]);
                            }
                        }
                        assert(kwf(g2.tables@)) by {
                            assert forall|m: int, n: int|
                                0 <= m < n < g2.tables@.len() implies g2.tables@[m].key_view()
                                != g2.tables@[n].key_view() by {
                                crate::kv::lemma_kidx(g0.tables@, archival_name@);
                                if m != i as int && n != i as int {
                                    assert(g2.tables@[m] == g0.tables@[m]);
                                    assert(g2.tables@[n] == g0.tables@[n]);
                                }
                            }
                        }
                    }
                    match set_version(db, nm.as_str(), latest) {
                        Ok(()) => {},
                        Err(e) => {
                            return Err(e);
                        },
                    }
                    let ghost g3 = *db;
                    db.tables.push((nm, fresh));
                    proof {
                        let g4 = *db;
                        assert(g4.tables@ =~= g3.tables@.push(g4.tables@.last()));
                        assert(g4.tables@.last().key_view() == nm_v);
                        assert forall|n: Seq<char>| true implies (if n == nm_v {
                            kidx(g4.tables@, n) == g3.tables@.len()
                        } else {
                            kidx(g4.tables@, n) == kidx(g3.tables@, n)
                        }) by {
                            crate::kv::lemma_kidx_push(g3.tables@, g4.tables@.last(), n);
                        }
                        assert forall|n: Seq<char>| n != nm_v implies kget(g4.tables@, n) == kget(
                            g3.tables@,
                            n,
                        ) by {
                            crate::kv::lemma_kidx(g3.tables@, n);
                            if kidx(g3.tables@, n) >= 0 {
                                assert(g4.tables@[kidx(g3.tables@, n)] == g3.tables@[kidx(
                                    g3.tables@,
                                    n,
                                )]);
                            }
                        }
                        assert(kget(g4.tables@, nm_v) == Some(g4.tables@.last()));
                        assert(kwf(g4.tables@)) by {
                            assert forall|m: int, n: int|
                                0 <= m < n < g4.tables@.len() implies g4.tables@[m].key_view()
                                != g4.tables@[n].key_view() by {
                                if n == g4.tables@.len() - 1 {
                                    assert(g4.tables@[m] == g3.tables@[m]);
                                    crate::kv::lemma_kidx(g3.tables@, nm_v);
                                }
                            }
                        }
                        assert(prior_rows(g0, nm_v) == g0.tables@[i as int].1.rows@);
                    }
                    Ok(())
                },
                Err(e) => {
                    db.tables.insert(i, (old_name, old_data));
                    proof {
                        assert(db.tables@ =~= g0.tables@);
                        assert(db.meta@ == g0.meta@);
                    }
                    Err(e)
                },
            }
        },
        None => {
            proof {
                crate::kv::lemma_kidx(g0.tables@, nm_v);
            }
            let empty_prior = TableData::empty();
            let mut fresh = TableData::empty();
            let hook = table.migrate_data(&empty_prior, &mut fresh);
            proof {
                assert(empty_prior.rows@ =~= Seq::<Row>::empty());
                assert(prior_rows(g0, nm_v) =~= Seq::<Row>::empty());
            }
            match hook {
                Ok(()) => {
                    match set_version(db, nm.as_str(), latest) {
                        Ok(()) => {},
                        Err(e) => {
                            return Err(e);
                        },
                    }
                    let ghost g3 = *db;
                    db.tables.push((nm, fresh));
                    proof {
                        let g4 = *db;
                        assert(g4.tables@ =~= g3.tables@.push(g4.tables@.last()));
                        assert(g4.tables@.last().key_view() == nm_v);
                        assert forall|n: Seq<char>| true implies (if n == nm_v {
                            kidx(g4.tables@, n) == g3.tables@.len()
                        } else {
                            kidx(g4.tables@, n) == kidx(g3.tables@, n)
                        }) by {
                            crate::kv::lemma_kidx_push(g3.tables@, g4.tables@.last(), n);
                        }
                        assert forall|n: Seq<char>| n != nm_v implies kget(g4.tables@, n) == kget(
                            g3.tables@,
                            n,
                        ) by {
                            crate::kv::lemma_kidx(g3.tables@, n);
                            if kidx(g3.tables@, n) >= 0 {
                                assert(g4.tables@[kidx(g3.tables@, n)] == g3.tables@[kidx(
                                    g3.tables@,
                                    n,
                                )]);
                            }
                        }
                        assert(kget(g4.tables@, nm_v) == Some(g4.tables@.last()));
                        assert(kwf(g4.tables@)) by {
                            assert forall|m: int, n: int|
                                0 <= m < n < g4.tables@.len() implies g4.tables@[m].key_view()
                                != g4.tables@[n].key_view() by {
                                if n == g4.tables@.len() - 1 {
                                    assert(g4.tables@[m] == g3.tables@[m]);
                                    crate::kv::lemma_kidx(g3.tables@, nm_v);
                                }
                            }
                        }
                    }
                    Ok(())
                },
                Err(e) => Err(e),
            }
        },
    }
}

} // verus!
