//! The task archive: the full serialized state of each queue task, mirrored
//! to disk so in-flight work survives a process restart.
//!
//! The strict recovery invariant: a task persisted as actively running is
//! handed back as paused on every cold start, because no worker is attached
//! to it yet. The persisted row is not rewritten by that step; the downgrade
//! is an in-memory correction.
use crate::db::{db_wf, Database, Row, TableData, TableSpec};
use crate::json::{obj_get, obj_get_exec, JsonValue};
use crate::kv::{kfind, kget, khas, kidx, kupsert, kwf, str_eq, Keyed};
use crate::StoreError;
use vstd::prelude::*;

verus! {

broadcast use vstd::seq::group_seq_axioms, vstd::std_specs::vec::group_vec_axioms;

/// Task lifecycle states, as the queue collaborator defines them. `Active`
/// is the distinguished state of a task a worker is currently running.
#[derive(Clone, Copy, Debug, PartialEq, Eq, Structural)]
pub enum TaskState {
    Active,
    Paused,
    Queued,
    Completed,
    Failed,
}

/// One queue task, in the shape the archive serializes.
#[derive(Debug, PartialEq, Eq)]
pub struct Task {
    pub id: String,
    pub state: TaskState,
    pub url: String,
    pub progress: i64,
}

/// The columns of the archive table, in stored order.
#[derive(Clone, Copy, Debug, PartialEq, Eq, Structural)]
pub enum Archive {
    Table,
    Name,
    Value,
    UpdatedAt,
}

/// The stored name of a lifecycle state.
pub open spec fn state_name(s: TaskState) -> Seq<char> {
    match s {
        TaskState::Active => "active"@,
        TaskState::Paused => "paused"@,
        TaskState::Queued => "queued"@,
        TaskState::Completed => "completed"@,
        TaskState::Failed => "failed"@,
    }
}

/// The lifecycle state a stored name denotes, if any.
pub open spec fn state_of_name(n: Seq<char>) -> Option<TaskState> {
    if n == "active"@ {
        Some(TaskState::Active)
    } else if n == "paused"@ {
        Some(TaskState::Paused)
    } else if n == "queued"@ {
        Some(TaskState::Queued)
    } else if n == "completed"@ {
        Some(TaskState::Completed)
    } else if n == "failed"@ {
        Some(TaskState::Failed)
    } else {
        None
    }
}

/// The five state names are distinct, so naming and reading back are
/// mutually inverse.
pub proof fn lemma_state_names(s: TaskState)
    ensures
        state_of_name(state_name(s)) == Some(s),
{
    reveal_strlit("active");
    reveal_strlit("paused");
    reveal_strlit("queued");
    reveal_strlit("completed");
    reveal_strlit("failed");
    assert("paused"@[0] == 'p' && "active"@[0] == 'a' && "queued"@[0] == 'q' && "failed"@[0]
        == 'f' && "completed"@[0] == 'c');
}

/// Whether the structured value `v` is the serialized form of task `t`.
pub open spec fn task_value(v: JsonValue, t: Task) -> bool {
    match v {
        JsonValue::Obj(entries) => {
            &&& (match obj_get(entries@, "id"@) {
                Some(JsonValue::Str(s)) => s@ == t.id@,
                _ => false,
            })
            &&& (match obj_get(entries@, "state"@) {
                Some(JsonValue::Str(s)) => s@ == state_name(t.state),
                _ => false,
            })
            &&& (match obj_get(entries@, "url"@) {
                Some(JsonValue::Str(s)) => s@ == t.url@,
                _ => false,
            })
            &&& (match obj_get(entries@, "progress"@) {
                Some(JsonValue::Int(x)) => x == t.progress,
                _ => false,
            })
        },
        _ => false,
    }
}

/// Whether `v` has the shape of a serialized task: all four fields present,
/// each of the right type, with a recognised state name.
pub open spec fn task_shape_ok(v: JsonValue) -> bool {
    match v {
        JsonValue::Obj(entries) => {
            &&& obj_get(entries@, "id"@) matches Some(JsonValue::Str(_))
            &&& (match obj_get(entries@, "state"@) {
                Some(JsonValue::Str(s)) => state_of_name(s@) is Some,
                _ => false,
            })
            &&& obj_get(entries@, "url"@) matches Some(JsonValue::Str(_))
            &&& obj_get(entries@, "progress"@) matches Some(JsonValue::Int(_))
        },
        _ => false,
    }
}

/// Whether `t` is what `load` hands back for a stored value `v`: the
/// serialized task, except that a stored `active` state reads back `paused`.
pub open spec fn loaded_repr(v: JsonValue, t: Task) -> bool {
    match v {
        JsonValue::Obj(entries) => {
            &&& (match obj_get(entries@, "id"@) {
                Some(JsonValue::Str(s)) => s@ == t.id@,
                _ => false,
            })
            &&& (match obj_get(entries@, "state"@) {
                Some(JsonValue::Str(s)) => if s@ == "active"@ {
                    t.state is Paused
                } else {
                    state_of_name(s@) == Some(t.state)
                },
                _ => false,
            })
            &&& (match obj_get(entries@, "url"@) {
                Some(JsonValue::Str(s)) => s@ == t.url@,
                _ => false,
            })
            &&& (match obj_get(entries@, "progress"@) {
                Some(JsonValue::Int(x)) => x == t.progress,
                _ => false,
            })
        },
        _ => false,
    }
}

/// Round trip through the archive: what `load` hands back for the serialized
/// form of `t` equals `t` in every field except a possibly-changed state —
/// `active` reads back as `paused` and every other state is unchanged.
pub proof fn lemma_round_trip(v: JsonValue, t: Task, t2: Task)
    requires
        task_value(v, t),
        loaded_repr(v, t2),
    ensures
        t2.id@ == t.id@,
        t2.url@ == t.url@,
        t2.progress == t.progress,
        t.state is Active ==> t2.state is Paused,
        !(t.state is Active) ==> t2.state == t.state,
{
    lemma_state_names(t.state);
    reveal_strlit("active");
    reveal_strlit("paused");
    reveal_strlit("queued");
    reveal_strlit("completed");
    reveal_strlit("failed");
}

/// Serialize a task to its stored structured form.
pub fn task_to_value(t: &Task) -> (v: JsonValue)
    ensures
        task_value(v, *t),
        task_shape_ok(v),
{
    let state_str: String = match t.state {
        TaskState::Active => "active".to_owned(),
        TaskState::Paused => "paused".to_owned(),
        TaskState::Queued => "queued".to_owned(),
        TaskState::Completed => "completed".to_owned(),
        TaskState::Failed => "failed".to_owned(),
    };
    let mut entries: Vec<(String, JsonValue)> = Vec::new();
    entries.push(("id".to_owned(), JsonValue::Str(t.id.clone())));
    entries.push(("state".to_owned(), JsonValue::Str(state_str)));
    entries.push(("url".to_owned(), JsonValue::Str(t.url.clone())));
    entries.push(("progress".to_owned(), JsonValue::Int(t.progress)));
    proof {
        reveal_strlit("id");
        reveal_strlit("state");
        reveal_strlit("url");
        reveal_strlit("progress");
        let e = entries@;
        crate::kv::lemma_kidx(e, "id"@);
        crate::kv::lemma_kidx(e, "state"@);
        crate::kv::lemma_kidx(e, "url"@);
        crate::kv::lemma_kidx(e, "progress"@);
        assert(e[0].key_view() == "id"@);
        assert(e[1].key_view() == "state"@);
        assert(e[2].key_view() == "url"@);
        assert(e[3].key_view() == "progress"@);
        assert(kidx(e, "id"@) == 0);
        assert(kidx(e, "state"@) == 1);
        assert(kidx(e, "url"@) == 2);
        assert(kidx(e, "progress"@) == 3);
        lemma_state_names(t.state);
    }
    JsonValue::Obj(entries)
}

/// Read a task back from its stored structured form; `None` when the value
/// does not have the shape of a serialized task.
pub fn task_from_value(v: &JsonValue) -> (r: Option<Task>)
    ensures
        r is Some <==> task_shape_ok(*v),
        match r {
            Some(t) => task_value(*v, t),
            None => true,
        },
{
    let entries = match v {
        JsonValue::Obj(entries) => entries,
        _ => {
            return None;
        },
    };
    let id: String = match obj_get_exec(entries, "id") {
        Some(JsonValue::Str(s)) => s.clone(),
        _ => {
            return None;
        },
    };
    let state_str: &String = match obj_get_exec(entries, "state") {
        Some(JsonValue::Str(s)) => s,
        _ => {
            return None;
        },
    };
    let url: String = match obj_get_exec(entries, "url") {
        Some(JsonValue::Str(s)) => s.clone(),
        _ => {
            return None;
        },
    };
    let progress: i64 = match obj_get_exec(entries, "progress") {
        Some(JsonValue::Int(x)) => *x,
        _ => {
            return None;
        },
    };
    let state: TaskState = if str_eq(state_str.as_str(), "active") {
        TaskState::Active
    } else if str_eq(state_str.as_str(), "paused") {
        TaskState::Paused
    } else if str_eq(state_str.as_str(), "queued") {
        TaskState::Queued
    } else if str_eq(state_str.as_str(), "completed") {
        TaskState::Completed
    } else if str_eq(state_str.as_str(), "failed") {
        TaskState::Failed
    } else {
        return None;
    };
    proof {
        lemma_state_names(state);
    }
    Some(Task { id, state, url, progress })
}

/// Every entry of `out` is what `load` reads from the matching row prefix.
pub open spec fn loaded_prefix(rows: Seq<Row>, out: Seq<Task>, n: int) -> bool {
    forall|j: int| #![all_triggers]
        0 <= j < n ==> rows[j].fields@.len() >= 1 && loaded_repr(rows[j].fields@[0], out[j])
}

/// The rows of the archive table, or none when it has not been created.
pub open spec fn arch_rows(db: Database) -> Seq<Row> {
    crate::db::prior_rows(db, "archive"@)
}

/// Unique task ids in the archive.
pub open spec fn arch_wf(db: Database) -> bool {
    kwf(arch_rows(db))
}

/// The archive table: one row per task id, holding the serialized task and
/// its update timestamp.
pub struct ArchiveTable;

impl TableSpec for ArchiveTable {
    open spec fn name_spec(&self) -> Seq<char> {
        "archive"@
    }

    open spec fn latest_spec(&self) -> i64 {
        2
    }

    open spec fn migrate_ok(&self, old_rows: Seq<Row>) -> bool {
        true
    }

    open spec fn migrate_model(&self, old_rows: Seq<Row>) -> Seq<Row> {
        Seq::empty()
    }

    fn name(&self) -> (r: String) {
        "archive".to_owned()
    }

    fn latest(&self) -> (r: i64) {
        2
    }

    open spec fn create_stmt_spec(&self) -> Seq<char> {
        "CREATE TABLE IF NOT EXISTS \"archive\" ( \"name\" text NOT NULL PRIMARY KEY, \"value\" text NOT NULL, \"updated_at\" integer NOT NULL )"@
    }

    fn create_stmt(&self) -> (r: String) {
        "CREATE TABLE IF NOT EXISTS \"archive\" ( \"name\" text NOT NULL PRIMARY KEY, \"value\" text NOT NULL, \"updated_at\" integer NOT NULL )".to_owned()
    }

    fn migrate_data(&self, old_rows: &TableData, fresh: &mut TableData) -> (r: Result<
        (),
        StoreError,
    >) {
        proof {
            assert(fresh.rows@ =~= Seq::<Row>::empty());
        }
        Ok(())
    }
}

/// Serialize `task` and write it keyed by its id, overwriting any existing
/// row and refreshing the update timestamp `now`, as one atomic statement.
pub fn upsert(db: &mut Database, task: &Task, now: i64) -> (r: Result<(), StoreError>)
    requires
        db_wf(*old(db)),
        arch_wf(*old(db)),
    ensures
        db_wf(*final(db)),
        arch_wf(*final(db)),
        final(db).meta == old(db).meta,
        forall|n: Seq<char>|
            n != "archive"@ ==> kget(final(db).tables@, n) == kget(old(db).tables@, n),
        match r {
            Ok(()) => {
                &&& khas(old(db).tables@, "archive"@)
                &&& khas(final(db).tables@, "archive"@)
                &&& (match kget(arch_rows(*final(db)), task.id@) {
                    Some(row) => {
                        &&& row.fields@.len() == 2
                        &&& task_value(row.fields@[0], *task)
                        &&& task_shape_ok(row.fields@[0])
                        &&& row.fields@[1] == JsonValue::Int(now)
                    },
                    None => false,
                })
                &&& forall|k: Seq<char>|
                    k != task.id@ ==> kget(arch_rows(*final(db)), k) == kget(
                        arch_rows(*old(db)),
                        k,
                    )
            },
            Err(e) => {
                &&& e == StoreError::QueryFailure
                &&& !khas(old(db).tables@, "archive"@)
                &&& final(db).tables@ == old(db).tables@
            },
        },
{
    let value = task_to_value(task);
    let mut fields: Vec<JsonValue> = Vec::new();
    fields.push(value);
    fields.push(JsonValue::Int(now));
    let row = Row { key: task.id.clone(), fields };
    let ti = match kfind(&db.tables, "archive") {
        Some(i) => i,
        None => {
            return Err(StoreError::QueryFailure);
        },
    };
    let ghost orig_tables = db.tables@;
    let mut pair = db.tables.remove(ti);
    kupsert(&mut pair.1.rows, row);
    db.tables.insert(ti, pair);
    proof {
        assert(db.tables@ =~= orig_tables.update(ti as int, db.tables@[ti as int]));
        crate::kv::lemma_kidx(orig_tables, "archive"@);
        crate::db::lemma_tables_replace(orig_tables, db.tables@, ti as int);
    }
    Ok(())
}

/// Read every persisted task, in row order, deserializing each and
/// downgrading a stored `active` state to `paused` before handing it back.
/// One row that does not deserialize fails the whole load.
pub fn load(db: &Database) -> (r: Result<Vec<Task>, StoreError>)
    ensures
        match r {
            Ok(list) => {
                &&& khas(db.tables@, "archive"@)
                &&& list@.len() == arch_rows(*db).len()
                &&& loaded_prefix(arch_rows(*db), list@, list@.len() as int)
            },
            Err(e) => {
                ||| (e == StoreError::QueryFailure && !khas(db.tables@, "archive"@))
                ||| (e == StoreError::SerializationFailure && exists|i: int|
                    0 <= i < arch_rows(*db).len() && (arch_rows(*db)[i].fields@.len() < 1
                        || !task_shape_ok(arch_rows(*db)[i].fields@[0])))
            },
        },
{
    let ti = match kfind(&db.tables, "archive") {
        Some(i) => i,
        None => {
            return Err(StoreError::QueryFailure);
        },
    };
    let rows = &db.tables[ti].1.rows;
    proof {
        crate::kv::lemma_kidx(db.tables@, "archive"@);
        assert(arch_rows(*db) == rows@);
    }
    let mut out: Vec<Task> = Vec::new();
    let mut i: usize = 0;
    #[verifier::loop_isolation(false)]
    while i < rows.len()
        invariant
            i <= rows@.len(),
            out@.len() == i,
            loaded_prefix(rows@, out@, i as int),
        decreases rows@.len() - i,
    {
        let row = &rows[i];
        if row.fields.len() < 1 {
            return Err(StoreError::SerializationFailure);
        }
        let mut task = match task_from_value(&row.fields[0]) {
            Some(t) => t,
            None => {
                return Err(StoreError::SerializationFailure);
            },
        };
        let ghost t0 = task;
        if let TaskState::Active = task.state {
            task.state = TaskState::Paused;
        }
        proof {
            reveal_strlit("active");
            reveal_strlit("paused");
            reveal_strlit("queued");
            reveal_strlit("completed");
            reveal_strlit("failed");
            lemma_state_names(t0.state);
            assert(loaded_repr(rows@[i as int].fields@[0], task));
        }
        let ghost out_before = out@;
        out.push(task);
        proof {
            assert(loaded_prefix(rows@, out_before, i as int));
            assert forall|j: int| #![all_triggers]
                0 <= j < i + 1 implies rows@[j].fields@.len() >= 1 && loaded_repr(
                rows@[j].fields@[0],
                out@[j],
            ) by {
                if j < i {
                    assert(out@[j] == out_before[j]);
                    assert(rows@[j].fields@.len() >= 1 && loaded_repr(
                        rows@[j].fields@[0],
                        out_before[j],
                    ));
                } else {
                    assert(out@[j] == task);
                }
            }
            assert(loaded_prefix(rows@, out@, i + 1));
        }
        i += 1;
    }
    Ok(out)
}

/// Remove the row for that id; deleting a never-inserted or already-deleted
/// id succeeds all the same, so `delete` is idempotent.
pub fn delete(db: &mut Database, name: &str) -> (r: Result<(), StoreError>)
    requires
        db_wf(*old(db)),
        arch_wf(*old(db)),
    ensures
        db_wf(*final(db)),
        arch_wf(*final(db)),
        final(db).meta == old(db).meta,
        forall|n: Seq<char>|
            n != "archive"@ ==> kget(final(db).tables@, n) == kget(old(db).tables@, n),
        match r {
            Ok(()) => {
                &&& khas(old(db).tables@, "archive"@)
                &&& khas(final(db).tables@, "archive"@)
                &&& kget(arch_rows(*final(db)), name@) is None
                &&& forall|k: Seq<char>|
                    k != name@ ==> kget(arch_rows(*final(db)), k) == kget(arch_rows(*old(db)), k)
                &&& (!khas(arch_rows(*old(db)), name@) ==> arch_rows(*final(db)) == arch_rows(
                    *old(db),
                ))
            },
            Err(e) => {
                &&& e == StoreError::QueryFailure
                &&& !khas(old(db).tables@, "archive"@)
                &&& final(db).tables@ == old(db).tables@
            },
        },
{
    let ti = match kfind(&db.tables, "archive") {
        Some(i) => i,
        None => {
            return Err(StoreError::QueryFailure);
        },
    };
    let ghost orig_tables = db.tables@;
    let mut pair = db.tables.remove(ti);
    crate::kv::kremove(&mut pair.1.rows, name);
    db.tables.insert(ti, pair);
    proof {
        assert(db.tables@ =~= orig_tables.update(ti as int, db.tables@[ti as int]));
        crate::kv::lemma_kidx(orig_tables, "archive"@);
        crate::db::lemma_tables_replace(orig_tables, db.tables@, ti as int);
    }
    Ok(())
}

} // verus!
