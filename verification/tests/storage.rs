use bilitools_storage::archive;
use bilitools_storage::archive::{ArchiveTable, Task, TaskState};
use bilitools_storage::config;
use bilitools_storage::config::{AppDirs, CacheKey, ConfigCache, ConfigTable, Settings, Theme};
use bilitools_storage::cookies;
use bilitools_storage::cookies::{parse_cookie, parse_expires, CookiesTable};
use bilitools_storage::db;
use bilitools_storage::db::{Database, DbHandle, Row, TableSpec};
use bilitools_storage::json::JsonValue;
use bilitools_storage::StoreError;

fn fresh_db() -> Database {
    let mut d = Database::empty();
    db::check_latest(&ConfigTable, &mut d, "config_0").unwrap();
    db::check_latest(&CookiesTable, &mut d, "cookies_0").unwrap();
    db::check_latest(&ArchiveTable, &mut d, "archive_0").unwrap();
    d
}

fn loaded_settings(d: &mut Database) -> Settings {
    let mut cache = ConfigCache::new();
    config::load(d, &mut cache).unwrap();
    config::read(&cache)
}

#[test]
fn load_empty_store_yields_defaults() {
    let mut d = fresh_db();
    let s = loaded_settings(&mut d);
    assert_eq!(s.language, "zh-CN");
    assert_eq!(s.max_conc, 3);
    assert_eq!(s.theme, Theme::Auto);
    assert!(!s.convert.danmaku);
    assert_eq!(s.default.res, 116);
    assert_eq!(s.proxy.address, "");
}

#[test]
fn load_preserves_stored_values_and_merges_nested() {
    let mut d = fresh_db();
    config::insert(&mut d, "language".to_string(), JsonValue::Str("en-US".to_string())).unwrap();
    // a proxy object missing the "enabled" key: the default must be merged
    // in without touching the stored address
    let proxy = JsonValue::Obj(vec![(
        "address".to_string(),
        JsonValue::Str("socks5://127.0.0.1:1080".to_string()),
    )]);
    config::insert(&mut d, "proxy".to_string(), proxy).unwrap();
    let s = loaded_settings(&mut d);
    assert_eq!(s.language, "en-US");
    assert_eq!(s.proxy.address, "socks5://127.0.0.1:1080");
    assert!(!s.proxy.enabled);
    // untouched fields come from the compiled defaults
    assert_eq!(s.temp_dir, "Temp");
}

#[test]
fn load_twice_is_stable() {
    let mut d = fresh_db();
    config::insert(&mut d, "maxConc".to_string(), JsonValue::Int(8)).unwrap();
    let s1 = loaded_settings(&mut d);
    let s2 = loaded_settings(&mut d);
    assert_eq!(s1, s2);
    assert_eq!(s1.max_conc, 8);
}

#[test]
fn load_fails_fast_on_malformed_row() {
    let mut d = fresh_db();
    config::insert(&mut d, "maxConc".to_string(), JsonValue::Str("three".to_string())).unwrap();
    let mut cache = ConfigCache::new();
    assert_eq!(config::load(&mut d, &mut cache), Err(StoreError::SerializationFailure));
    // the snapshot is untouched by the failed load
    assert_eq!(config::read(&cache).max_conc, 3);
}

#[test]
fn write_drops_unknown_field_and_updates_known() {
    let mut d = fresh_db();
    let mut cache = ConfigCache::new();
    config::load(&mut d, &mut cache).unwrap();
    config::write(
        &mut d,
        &mut cache,
        vec![
            ("bogusField".to_string(), JsonValue::Int(1)),
            ("notify".to_string(), JsonValue::Bool(false)),
        ],
    )
    .unwrap();
    let s = config::read(&cache);
    assert!(!s.notify);
    // only the known field was persisted: a reload sees no trace of the
    // unknown name and keeps the updated value
    let s2 = loaded_settings(&mut d);
    assert!(!s2.notify);
    assert_eq!(s2.language, "zh-CN");
}

#[test]
fn write_with_nothing_accepted_is_a_no_op() {
    let mut d = fresh_db();
    let mut cache = ConfigCache::new();
    config::load(&mut d, &mut cache).unwrap();
    let before = config::read(&cache);
    config::write(&mut d, &mut cache, vec![("nope".to_string(), JsonValue::Bool(true))]).unwrap();
    assert_eq!(config::read(&cache), before);
}

#[test]
fn cookie_parses_all_attributes() {
    let c = parse_cookie(
        "sid=abc123; Path=/; Domain=.example.com; Expires=Wed, 09 Jun 2025 10:18:14 GMT; HttpOnly; Secure",
    )
    .unwrap();
    assert_eq!(c.name, "sid");
    assert_eq!(c.value, "abc123");
    assert_eq!(c.path.as_deref(), Some("/"));
    assert_eq!(c.domain.as_deref(), Some(".example.com"));
    assert_eq!(c.expires, Some(1749464294));
    assert!(c.httponly);
    assert!(c.secure);
}

#[test]
fn cookie_without_pair_before_semicolon_is_invalid() {
    assert_eq!(parse_cookie("malformed;Path=/").unwrap_err(), StoreError::InvalidCookie);
    assert_eq!(parse_cookie("").unwrap_err(), StoreError::InvalidCookie);
    assert_eq!(parse_cookie("=value").unwrap_err(), StoreError::InvalidCookie);
    assert_eq!(parse_cookie("name=").unwrap_err(), StoreError::InvalidCookie);
}

#[test]
fn cookie_with_malformed_expires_fails_whole_insert() {
    assert_eq!(
        parse_cookie("sid=x; Expires=tomorrow").unwrap_err(),
        StoreError::MalformedExpiry
    );
    let mut d = fresh_db();
    assert_eq!(
        cookies::insert(&mut d, "sid=x; Expires=09 Jun 2025".to_string()),
        Err(StoreError::MalformedExpiry)
    );
    assert_eq!(cookies::load(&d).unwrap(), vec![]);
}

#[test]
fn expires_rejects_impossible_dates() {
    assert!(parse_expires("Wed, 09 Jun 2025 10:18:14 GMT").is_ok());
    assert!(parse_expires("Wed, 31 Jun 2025 10:18:14 GMT").is_err());
    assert!(parse_expires("Sat, 29 Feb 2025 00:00:00 GMT").is_err());
    assert_eq!(parse_expires("Sun, 29 Feb 2004 00:00:00 GMT").unwrap(), 1078012800);
    assert!(parse_expires("Wed, 09 Jun 2025 24:00:00 GMT").is_err());
}

#[test]
fn expires_epoch_reference() {
    assert_eq!(parse_expires("Thu, 01 Jan 1970 00:00:00 GMT").unwrap(), 0);
    assert_eq!(parse_expires("Thu, 01 Jan 1970 00:00:01 GMT").unwrap(), 1);
}

#[test]
fn cookie_attributes_are_case_insensitive_and_unordered() {
    let c = parse_cookie("a=b; secure; DOMAIN=x.org; path=/p").unwrap();
    assert!(c.secure);
    assert!(!c.httponly);
    assert_eq!(c.domain.as_deref(), Some("x.org"));
    assert_eq!(c.path.as_deref(), Some("/p"));
    assert_eq!(c.expires, None);
}

#[test]
fn cookie_trims_unicode_whitespace() {
    // as str::trim does: non-breaking space and em space strip away
    let c = parse_cookie("\u{00A0}sid\u{00A0}=\u{2003}abc\u{2003}; Path=/p").unwrap();
    assert_eq!(c.name, "sid");
    assert_eq!(c.value, "abc");
    assert_eq!(c.path.as_deref(), Some("/p"));
}

#[test]
fn cookie_jar_load_is_sorted_by_name() {
    let mut d = fresh_db();
    cookies::insert(&mut d, "zz=1".to_string()).unwrap();
    cookies::insert(&mut d, "aa=2".to_string()).unwrap();
    cookies::insert(&mut d, "mm=3".to_string()).unwrap();
    let list = cookies::load(&d).unwrap();
    let names: Vec<&str> = list.iter().map(|p| p.0.as_str()).collect();
    assert_eq!(names, vec!["aa", "mm", "zz"]);
}

#[test]
fn cookie_upsert_overwrites_by_name() {
    let mut d = fresh_db();
    cookies::insert(&mut d, "sid=one; Path=/a".to_string()).unwrap();
    cookies::insert(&mut d, "sid=two".to_string()).unwrap();
    let list = cookies::load(&d).unwrap();
    assert_eq!(list, vec![("sid".to_string(), "two".to_string())]);
}

#[test]
fn cookie_delete_is_idempotent() {
    let mut d = fresh_db();
    cookies::insert(&mut d, "sid=x".to_string()).unwrap();
    assert!(cookies::delete(&mut d, "sid".to_string()).is_ok());
    assert!(cookies::delete(&mut d, "sid".to_string()).is_ok());
    assert!(cookies::delete(&mut d, "never".to_string()).is_ok());
    assert_eq!(cookies::load(&d).unwrap(), vec![]);
}

#[test]
fn archive_round_trips_a_task() {
    let mut d = fresh_db();
    let t = Task {
        id: "t1".to_string(),
        state: TaskState::Completed,
        url: "https://example.com/v".to_string(),
        progress: 77,
    };
    archive::upsert(&mut d, &t, 1000).unwrap();
    let tasks = archive::load(&d).unwrap();
    assert_eq!(tasks.len(), 1);
    assert_eq!(tasks[0], t);
}

#[test]
fn archive_downgrades_active_to_paused_on_load() {
    let mut d = fresh_db();
    let t = Task {
        id: "t2".to_string(),
        state: TaskState::Active,
        url: "u".to_string(),
        progress: 5,
    };
    archive::upsert(&mut d, &t, 1).unwrap();
    let tasks = archive::load(&d).unwrap();
    assert_eq!(tasks[0].state, TaskState::Paused);
    assert_eq!(tasks[0].id, "t2");
    assert_eq!(tasks[0].url, "u");
    assert_eq!(tasks[0].progress, 5);
    // other states are returned unchanged
    let t3 = Task { id: "t3".to_string(), state: TaskState::Failed, url: "u".to_string(), progress: 0 };
    archive::upsert(&mut d, &t3, 2).unwrap();
    let tasks = archive::load(&d).unwrap();
    assert!(tasks.iter().any(|x| x.id == "t3" && x.state == TaskState::Failed));
}

#[test]
fn archive_delete_is_idempotent() {
    let mut d = fresh_db();
    let t = Task { id: "t".to_string(), state: TaskState::Paused, url: String::new(), progress: 0 };
    archive::upsert(&mut d, &t, 0).unwrap();
    assert!(archive::delete(&mut d, "t").is_ok());
    assert!(archive::delete(&mut d, "t").is_ok());
    assert!(archive::delete(&mut d, "ghost").is_ok());
    assert_eq!(archive::load(&d).unwrap().len(), 0);
}

#[test]
fn archive_load_fails_fast_on_corrupt_row() {
    let mut d = fresh_db();
    let t = Task { id: "ok".to_string(), state: TaskState::Paused, url: String::new(), progress: 0 };
    archive::upsert(&mut d, &t, 0).unwrap();
    // hand-corrupt one row: its value is not a serialized task
    for (name, data) in d.tables.iter_mut() {
        if name == "archive" {
            data.rows.push(Row { key: "bad".to_string(), fields: vec![JsonValue::Null, JsonValue::Int(0)] });
        }
    }
    assert_eq!(archive::load(&d), Err(StoreError::SerializationFailure));
}

#[test]
fn migration_records_target_version_and_is_then_a_no_op() {
    let mut d = Database::empty();
    assert_eq!(db::get_version(&d, "archive").unwrap(), 0);
    db::check_latest(&ArchiveTable, &mut d, "archive_1700000000").unwrap();
    assert_eq!(db::get_version(&d, "archive").unwrap(), 2);
    let tables_after_first: Vec<String> = d.tables.iter().map(|t| t.0.clone()).collect();
    // a second startup pass performs no further rename or recreate
    db::check_latest(&ArchiveTable, &mut d, "archive_1700000001").unwrap();
    let tables_after_second: Vec<String> = d.tables.iter().map(|t| t.0.clone()).collect();
    assert_eq!(tables_after_first, tables_after_second);
    assert_eq!(db::get_version(&d, "archive").unwrap(), 2);
}

#[test]
fn migration_renames_old_table_to_archival_name() {
    let mut d = fresh_db();
    cookies::insert(&mut d, "sid=x".to_string()).unwrap();
    // force an upgrade by bumping the stored version away from the target
    db::set_version(&mut d, "cookies", 0).unwrap();
    db::check_latest(&CookiesTable, &mut d, "cookies_1700000000").unwrap();
    assert_eq!(db::get_version(&d, "cookies").unwrap(), 1);
    // the fresh table is empty, the archival table keeps the old row
    assert_eq!(cookies::load(&d).unwrap(), vec![]);
    let archival = d.tables.iter().find(|t| t.0 == "cookies_1700000000").unwrap();
    assert_eq!(archival.1.rows.len(), 1);
    assert_eq!(archival.1.rows[0].key, "sid");
}

#[test]
fn meta_versions_are_per_table() {
    let mut d = Database::empty();
    db::set_version(&mut d, "config", 4).unwrap();
    db::set_version(&mut d, "cookies", 7).unwrap();
    db::set_version(&mut d, "config", 5).unwrap();
    assert_eq!(db::get_version(&d, "config").unwrap(), 5);
    assert_eq!(db::get_version(&d, "cookies").unwrap(), 7);
    assert_eq!(db::get_version(&d, "never").unwrap(), 0);
}

#[test]
fn connection_lifecycle_errors() {
    let mut h = DbHandle::new(Database::empty());
    assert_eq!(db::get_db(&h).unwrap_err(), StoreError::NotInitialized);
    assert_eq!(db::export(&h).unwrap_err(), StoreError::NotInitialized);
    db::init_db(&mut h).unwrap();
    assert!(db::get_db(&h).is_ok());
    assert_eq!(db::init_db(&mut h).unwrap_err(), StoreError::AlreadyInitialized);
    db::close_db(&mut h).unwrap();
    db::close_db(&mut h).unwrap();
    assert_eq!(db::export(&h).unwrap_err(), StoreError::QueryFailure);
}

#[test]
fn export_import_round_trips_all_rows() {
    let mut h = DbHandle::new(Database::empty());
    db::init_db(&mut h).unwrap();
    db::check_latest(&ConfigTable, &mut h.data, "config_9").unwrap();
    db::check_latest(&CookiesTable, &mut h.data, "cookies_9").unwrap();
    db::check_latest(&ArchiveTable, &mut h.data, "archive_9").unwrap();
    cookies::insert(&mut h.data, "sid=abc; Secure".to_string()).unwrap();
    config::insert(&mut h.data, "language".to_string(), JsonValue::Str("ja-JP".to_string()))
        .unwrap();
    let t = Task { id: "t".to_string(), state: TaskState::Queued, url: "u".to_string(), progress: 1 };
    archive::upsert(&mut h.data, &t, 42).unwrap();

    let snapshot = db::export(&h).unwrap();
    let mut h2 = DbHandle::new(Database::empty());
    db::init_db(&mut h2).unwrap();
    db::import(&mut h2, snapshot).unwrap();

    assert_eq!(
        cookies::load(&h2.data).unwrap(),
        vec![("sid".to_string(), "abc".to_string())]
    );
    assert_eq!(archive::load(&h2.data).unwrap(), vec![t]);
    let s = loaded_settings(&mut h2.data);
    assert_eq!(s.language, "ja-JP");
    assert_eq!(db::get_version(&h2.data, "cookies").unwrap(), 1);
}

#[test]
fn import_backs_up_the_previous_file() {
    let mut h = DbHandle::new(Database::empty());
    db::init_db(&mut h).unwrap();
    db::set_version(&mut h.data, "config", 9).unwrap();
    db::import(&mut h, Database::empty()).unwrap();
    assert_eq!(db::get_version(&h.data, "config").unwrap(), 0);
    let backup = h.backup.unwrap();
    assert_eq!(db::get_version(&backup, "config").unwrap(), 9);
}

#[test]
fn store_operations_without_tables_report_query_failure() {
    let mut d = Database::empty();
    assert_eq!(
        cookies::insert(&mut d, "a=b".to_string()),
        Err(StoreError::QueryFailure)
    );
    assert_eq!(cookies::load(&d), Err(StoreError::QueryFailure));
    let t = Task { id: "t".to_string(), state: TaskState::Paused, url: String::new(), progress: 0 };
    assert_eq!(archive::upsert(&mut d, &t, 0), Err(StoreError::QueryFailure));
    assert_eq!(archive::load(&d), Err(StoreError::QueryFailure));
    let mut cache = ConfigCache::new();
    assert_eq!(config::load(&mut d, &mut cache), Err(StoreError::QueryFailure));
}

#[test]
fn cache_paths_follow_the_host_platform() {
    let mut d = fresh_db();
    let s = loaded_settings(&mut d);
    let dirs = AppDirs {
        app_log_dir: "/logs".to_string(),
        app_cache_dir: "/cache".to_string(),
        app_local_data_dir: "/local".to_string(),
        app_data_dir: "/data".to_string(),
    };
    assert_eq!(s.get_cache(&CacheKey::Log, "linux", &dirs).unwrap(), "/logs");
    assert_eq!(
        s.get_cache(&CacheKey::Temp, "linux", &dirs).unwrap(),
        "Temp/com.btjawa.bilitools"
    );
    assert_eq!(
        s.get_cache(&CacheKey::Webview, "macos", &dirs).unwrap(),
        "/cache/../WebKit/BiliTools/WebsiteData"
    );
    assert_eq!(s.get_cache(&CacheKey::Webview, "linux", &dirs).unwrap(), "/cache/bilitools");
    assert_eq!(s.get_cache(&CacheKey::Webview, "windows", &dirs).unwrap(), "/local/EBWebView");
    assert_eq!(s.get_cache(&CacheKey::Database, "linux", &dirs).unwrap(), "/data/Storage");
}

#[test]
fn error_descriptions_are_distinct() {
    let all = [
        StoreError::NotInitialized,
        StoreError::AlreadyInitialized,
        StoreError::InvalidCookie,
        StoreError::MalformedExpiry,
        StoreError::SerializationFailure,
        StoreError::IoFailure,
        StoreError::QueryFailure,
    ];
    for (i, a) in all.iter().enumerate() {
        for (j, b) in all.iter().enumerate() {
            assert_eq!(i == j, a.describe() == b.describe());
        }
    }
}
