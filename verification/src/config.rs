//! The configuration store: application settings persisted as one row per
//! top-level field, merged against compiled-in defaults on load, and
//! published as a process-wide snapshot.
//!
//! The merge rule: a default field absent from the stored rows is inserted
//! and persisted; where both the stored value and the default are objects,
//! only the missing nested keys are copied in (one level), and existing
//! nested keys are never overwritten.
use crate::db::{db_wf, Database, Row, TableData, TableSpec};
use crate::json::{obj_get, obj_get_exec, JsonValue};
use crate::kv::{kfind, kget, khas, kidx, kupsert, kwf, str_eq, Keyed};
use crate::StoreError;
use vstd::prelude::*;

verus! {

broadcast use vstd::seq::group_seq_axioms, vstd::std_specs::vec::group_vec_axioms;

/// The colour theme.
#[derive(Clone, Copy, Debug, PartialEq, Eq, Structural)]
pub enum Theme {
    Auto,
    Light,
    Dark,
}

/// The window backdrop effect.
#[derive(Clone, Copy, Debug, PartialEq, Eq, Structural)]
pub enum WindowEffect {
    Auto,
    Mica,
    Acrylic,
}

/// A logical cache category `get_cache` resolves to a filesystem path.
#[derive(Clone, Copy, Debug, PartialEq, Eq, Structural)]
pub enum CacheKey {
    Log,
    Temp,
    Webview,
    Database,
}

/// Media conversion toggles.
#[derive(Debug, PartialEq, Eq)]
pub struct SettingsConvert {
    pub danmaku: bool,
    pub mp3: bool,
}

/// Default stream selections.
#[derive(Debug, PartialEq, Eq)]
pub struct SettingsDefault {
    pub res: i64,
    pub abr: i64,
}

/// Filename patterns.
#[derive(Debug, PartialEq, Eq)]
pub struct SettingsFormat {
    pub series: String,
    pub item: String,
}

/// Post-download organisation toggles.
#[derive(Debug, PartialEq, Eq)]
pub struct SettingsOrganize {
    pub auto_rename: bool,
    pub subdir: bool,
}

/// Proxy configuration.
#[derive(Debug, PartialEq, Eq)]
pub struct SettingsProxy {
    pub address: String,
    pub enabled: bool,
}

/// The application settings, one persisted row per field.
#[derive(Debug, PartialEq, Eq)]
pub struct Settings {
    pub add_metadata: bool,
    pub auto_check_update: bool,
    pub auto_download: bool,
    pub block_pcdn: bool,
    pub check_update: bool,
    pub clipboard: bool,
    pub convert: SettingsConvert,
    pub default: SettingsDefault,
    pub down_dir: String,
    pub drag_search: bool,
    pub format: SettingsFormat,
    pub language: String,
    pub max_conc: i64,
    pub notify: bool,
    pub temp_dir: String,
    pub theme: Theme,
    pub window_effect: WindowEffect,
    pub organize: SettingsOrganize,
    pub proxy: SettingsProxy,
}

/// An equal copy of the settings value.
pub fn settings_clone(s: &Settings) -> (r: Settings)
    ensures
        r == *s,
{
    Settings {
        add_metadata: s.add_metadata,
        auto_check_update: s.auto_check_update,
        auto_download: s.auto_download,
        block_pcdn: s.block_pcdn,
        check_update: s.check_update,
        clipboard: s.clipboard,
        convert: SettingsConvert { danmaku: s.convert.danmaku, mp3: s.convert.mp3 },
        default: SettingsDefault { res: s.default.res, abr: s.default.abr },
        down_dir: s.down_dir.clone(),
        drag_search: s.drag_search,
        format: SettingsFormat { series: s.format.series.clone(), item: s.format.item.clone() },
        language: s.language.clone(),
        max_conc: s.max_conc,
        notify: s.notify,
        temp_dir: s.temp_dir.clone(),
        theme: s.theme,
        window_effect: s.window_effect,
        organize: SettingsOrganize {
            auto_rename: s.organize.auto_rename,
            subdir: s.organize.subdir,
        },
        proxy: SettingsProxy { address: s.proxy.address.clone(), enabled: s.proxy.enabled },
    }
}

/// The stored name of a theme.
pub open spec fn theme_name(t: Theme) -> Seq<char> {
    match t {
        Theme::Auto => "auto"@,
        Theme::Light => "light"@,
        Theme::Dark => "dark"@,
    }
}

/// The theme a stored name denotes, if any.
pub open spec fn theme_of_name(n: Seq<char>) -> Option<Theme> {
    if n == "auto"@ {
        Some(Theme::Auto)
    } else if n == "light"@ {
        Some(Theme::Light)
    } else if n == "dark"@ {
        Some(Theme::Dark)
    } else {
        None
    }
}

/// The stored name of a window effect.
pub open spec fn effect_name(w: WindowEffect) -> Seq<char> {
    match w {
        WindowEffect::Auto => "auto"@,
        WindowEffect::Mica => "mica"@,
        WindowEffect::Acrylic => "acrylic"@,
    }
}

/// The window effect a stored name denotes, if any.
pub open spec fn effect_of_name(n: Seq<char>) -> Option<WindowEffect> {
    if n == "auto"@ {
        Some(WindowEffect::Auto)
    } else if n == "mica"@ {
        Some(WindowEffect::Mica)
    } else if n == "acrylic"@ {
        Some(WindowEffect::Acrylic)
    } else {
        None
    }
}

/// Naming a theme or effect and reading it back are mutually inverse.
pub proof fn lemma_choice_names(t: Theme, w: WindowEffect)
    ensures
        theme_of_name(theme_name(t)) == Some(t),
        effect_of_name(effect_name(w)) == Some(w),
{
    reveal_strlit("auto");
    reveal_strlit("light");
    reveal_strlit("dark");
    reveal_strlit("mica");
    reveal_strlit("acrylic");
    assert("auto"@[0] == 'a' && "dark"@[0] == 'd' && "mica"@[0] == 'm' && "light"@[0] == 'l'
        && "acrylic"@[1] == 'c' && "auto"@[1] == 'u');
}

/// The known top-level settings field names.
pub open spec fn is_known_key(k: Seq<char>) -> bool {
    ||| k == "addMetadata"@
    ||| k == "autoCheckUpdate"@
    ||| k == "autoDownload"@
    ||| k == "blockPcdn"@
    ||| k == "checkUpdate"@
    ||| k == "clipboard"@
    ||| k == "convert"@
    ||| k == "default"@
    ||| k == "downDir"@
    ||| k == "dragSearch"@
    ||| k == "format"@
    ||| k == "language"@
    ||| k == "maxConc"@
    ||| k == "notify"@
    ||| k == "tempDir"@
    ||| k == "theme"@
    ||| k == "windowEffect"@
    ||| k == "organize"@
    ||| k == "proxy"@
}

/// Whether `k` is a known top-level settings field name.
pub fn is_known_key_exec(k: &str) -> (r: bool)
    ensures
        r == is_known_key(k@),
{
    str_eq(k, "addMetadata") || str_eq(k, "autoCheckUpdate") || str_eq(k, "autoDownload")
        || str_eq(k, "blockPcdn") || str_eq(k, "checkUpdate") || str_eq(k, "clipboard") || str_eq(
        k,
        "convert",
    ) || str_eq(k, "default") || str_eq(k, "downDir") || str_eq(k, "dragSearch") || str_eq(
        k,
        "format",
    ) || str_eq(k, "language") || str_eq(k, "maxConc") || str_eq(k, "notify") || str_eq(
        k,
        "tempDir",
    ) || str_eq(k, "theme") || str_eq(k, "windowEffect") || str_eq(k, "organize") || str_eq(
        k,
        "proxy",
    )
}

/// The value stored under field name `k` in a set of configuration rows.
pub open spec fn cfg_value(o: Seq<Row>, k: Seq<char>) -> Option<JsonValue> {
    match kget(o, k) {
        Some(r) => Some(r.fields@[0]),
        None => None,
    }
}

/// Every configuration row carries exactly one value column.
pub open spec fn rows_unary(o: Seq<Row>) -> bool {
    forall|j: int| 0 <= j < o.len() ==> #[trigger] o[j].fields@.len() == 1
}

/// Whether `v` is the stored form of the conversion toggles.
pub open spec fn convert_repr(v: JsonValue, c: SettingsConvert) -> bool {
    match v {
        JsonValue::Obj(e) => {
            &&& (match obj_get(e@, "danmaku"@) {
                Some(JsonValue::Bool(b)) => b == c.danmaku,
                _ => false,
            })
            &&& (match obj_get(e@, "mp3"@) {
                Some(JsonValue::Bool(b)) => b == c.mp3,
                _ => false,
            })
        },
        _ => false,
    }
}

/// Whether `v` is the stored form of the default stream selections.
pub open spec fn dft_repr(v: JsonValue, c: SettingsDefault) -> bool {
    match v {
        JsonValue::Obj(e) => {
            &&& (match obj_get(e@, "res"@) {
                Some(JsonValue::Int(x)) => x == c.res,
                _ => false,
            })
            &&& (match obj_get(e@, "abr"@) {
                Some(JsonValue::Int(x)) => x == c.abr,
                _ => false,
            })
        },
        _ => false,
    }
}

/// Whether `v` is the stored form of the filename patterns.
pub open spec fn format_repr(v: JsonValue, c: SettingsFormat) -> bool {
    match v {
        JsonValue::Obj(e) => {
            &&& (match obj_get(e@, "series"@) {
                Some(JsonValue::Str(s)) => s@ == c.series@,
                _ => false,
            })
            &&& (match obj_get(e@, "item"@) {
                Some(JsonValue::Str(s)) => s@ == c.item@,
                _ => false,
            })
        },
        _ => false,
    }
}

/// Whether `v` is the stored form of the organisation toggles.
pub open spec fn organize_repr(v: JsonValue, c: SettingsOrganize) -> bool {
    match v {
        JsonValue::Obj(e) => {
            &&& (match obj_get(e@, "autoRename"@) {
                Some(JsonValue::Bool(b)) => b == c.auto_rename,
                _ => false,
            })
            &&& (match obj_get(e@, "subdir"@) {
                Some(JsonValue::Bool(b)) => b == c.subdir,
                _ => false,
            })
        },
        _ => false,
    }
}

/// Whether `v` is the stored form of the proxy configuration.
pub open spec fn proxy_repr(v: JsonValue, c: SettingsProxy) -> bool {
    match v {
        JsonValue::Obj(e) => {
            &&& (match obj_get(e@, "address"@) {
                Some(JsonValue::Str(s)) => s@ == c.address@,
                _ => false,
            })
            &&& (match obj_get(e@, "enabled"@) {
                Some(JsonValue::Bool(b)) => b == c.enabled,
                _ => false,
            })
        },
        _ => false,
    }
}

/// Whether the configuration rows `o` are a stored form of settings `s`:
/// every known field is present and carries `s`'s value for it. Rows under
/// unknown names are ignored.
pub open spec fn settings_repr(o: Seq<Row>, s: Settings) -> bool {
    &&& (match cfg_value(o, "addMetadata"@) {
        Some(JsonValue::Bool(b)) => b == s.add_metadata,
        _ => false,
    })
    &&& (match cfg_value(o, "autoCheckUpdate"@) {
        Some(JsonValue::Bool(b)) => b == s.auto_check_update,
        _ => false,
    })
    &&& (match cfg_value(o, "autoDownload"@) {
        Some(JsonValue::Bool(b)) => b == s.auto_download,
        _ => false,
    })
    &&& (match cfg_value(o, "blockPcdn"@) {
        Some(JsonValue::Bool(b)) => b == s.block_pcdn,
        _ => false,
    })
    &&& (match cfg_value(o, "checkUpdate"@) {
        Some(JsonValue::Bool(b)) => b == s.check_update,
        _ => false,
    })
    &&& (match cfg_value(o, "clipboard"@) {
        Some(JsonValue::Bool(b)) => b == s.clipboard,
        _ => false,
    })
    &&& (match cfg_value(o, "convert"@) {
        Some(v) => convert_repr(v, s.convert),
        None => false,
    })
    &&& (match cfg_value(o, "default"@) {
        Some(v) => dft_repr(v, s.default),
        None => false,
    })
    &&& (match cfg_value(o, "downDir"@) {
        Some(JsonValue::Str(t)) => t@ == s.down_dir@,
        _ => false,
    })
    &&& (match cfg_value(o, "dragSearch"@) {
        Some(JsonValue::Bool(b)) => b == s.drag_search,
        _ => false,
    })
    &&& (match cfg_value(o, "format"@) {
        Some(v) => format_repr(v, s.format),
        None => false,
    })
    &&& (match cfg_value(o, "language"@) {
        Some(JsonValue::Str(t)) => t@ == s.language@,
        _ => false,
    })
    &&& (match cfg_value(o, "maxConc"@) {
        Some(JsonValue::Int(x)) => x == s.max_conc,
        _ => false,
    })
    &&& (match cfg_value(o, "notify"@) {
        Some(JsonValue::Bool(b)) => b == s.notify,
        _ => false,
    })
    &&& (match cfg_value(o, "tempDir"@) {
        Some(JsonValue::Str(t)) => t@ == s.temp_dir@,
        _ => false,
    })
    &&& (match cfg_value(o, "theme"@) {
        Some(JsonValue::Str(t)) => t@ == theme_name(s.theme),
        _ => false,
    })
    &&& (match cfg_value(o, "windowEffect"@) {
        Some(JsonValue::Str(t)) => t@ == effect_name(s.window_effect),
        _ => false,
    })
    &&& (match cfg_value(o, "organize"@) {
        Some(v) => organize_repr(v, s.organize),
        None => false,
    })
    &&& (match cfg_value(o, "proxy"@) {
        Some(v) => proxy_repr(v, s.proxy),
        None => false,
    })
}

/// Whether the configuration rows deserialize into some settings value.
pub open spec fn settings_shape_ok(o: Seq<Row>) -> bool {
    exists|s: Settings| settings_repr(o, s)
}

/// Read the conversion toggles back from their stored form.
fn convert_from(v: &JsonValue) -> (r: Option<SettingsConvert>)
    ensures
        match r {
            Some(c) => convert_repr(*v, c),
            None => forall|c: SettingsConvert| !convert_repr(*v, c),
        },
{
    let e = match v {
        JsonValue::Obj(e) => e,
        _ => {
            return None;
        },
    };
    let danmaku = match obj_get_exec(e, "danmaku") {
        Some(JsonValue::Bool(b)) => *b,
        _ => {
            return None;
        },
    };
    let mp3 = match obj_get_exec(e, "mp3") {
        Some(JsonValue::Bool(b)) => *b,
        _ => {
            return None;
        },
    };
    Some(SettingsConvert { danmaku, mp3 })
}

/// Read the default stream selections back from their stored form.
fn dft_from(v: &JsonValue) -> (r: Option<SettingsDefault>)
    ensures
        match r {
            Some(c) => dft_repr(*v, c),
            None => forall|c: SettingsDefault| !dft_repr(*v, c),
        },
{
    let e = match v {
        JsonValue::Obj(e) => e,
        _ => {
            return None;
        },
    };
    let res = match obj_get_exec(e, "res") {
        Some(JsonValue::Int(x)) => *x,
        _ => {
            return None;
        },
    };
    let abr = match obj_get_exec(e, "abr") {
        Some(JsonValue::Int(x)) => *x,
        _ => {
            return None;
        },
    };
    Some(SettingsDefault { res, abr })
}

/// Read the filename patterns back from their stored form.
fn format_from(v: &JsonValue) -> (r: Option<SettingsFormat>)
    ensures
        match r {
            Some(c) => format_repr(*v, c),
            None => forall|c: SettingsFormat| !format_repr(*v, c),
        },
{
    let e = match v {
        JsonValue::Obj(e) => e,
        _ => {
            return None;
        },
    };
    let series = match obj_get_exec(e, "series") {
        Some(JsonValue::Str(s)) => s.clone(),
        _ => {
            return None;
        },
    };
    let item = match obj_get_exec(e, "item") {
        Some(JsonValue::Str(s)) => s.clone(),
        _ => {
            return None;
        },
    };
    Some(SettingsFormat { series, item })
}

/// Read the organisation toggles back from their stored form.
fn organize_from(v: &JsonValue) -> (r: Option<SettingsOrganize>)
    ensures
        match r {
            Some(c) => organize_repr(*v, c),
            None => forall|c: SettingsOrganize| !organize_repr(*v, c),
        },
{
    let e = match v {
        JsonValue::Obj(e) => e,
        _ => {
            return None;
        },
    };
    let auto_rename = match obj_get_exec(e, "autoRename") {
        Some(JsonValue::Bool(b)) => *b,
        _ => {
            return None;
        },
    };
    let subdir = match obj_get_exec(e, "subdir") {
        Some(JsonValue::Bool(b)) => *b,
        _ => {
            return None;
        },
    };
    Some(SettingsOrganize { auto_rename, subdir })
}

/// Read the proxy configuration back from its stored form.
fn proxy_from(v: &JsonValue) -> (r: Option<SettingsProxy>)
    ensures
        match r {
            Some(c) => proxy_repr(*v, c),
            None => forall|c: SettingsProxy| !proxy_repr(*v, c),
        },
{
    let e = match v {
        JsonValue::Obj(e) => e,
        _ => {
            return None;
        },
    };
    let address = match obj_get_exec(e, "address") {
        Some(JsonValue::Str(s)) => s.clone(),
        _ => {
            return None;
        },
    };
    let enabled = match obj_get_exec(e, "enabled") {
        Some(JsonValue::Bool(b)) => *b,
        _ => {
            return None;
        },
    };
    Some(SettingsProxy { address, enabled })
}

/// The stored value under field `k`, if any.
fn cfg_get<'a>(rows: &'a Vec<Row>, k: &str) -> (r: Option<&'a JsonValue>)
    requires
        rows_unary(rows@),
    ensures
        match r {
            Some(v) => cfg_value(rows@, k@) == Some(*v),
            None => cfg_value(rows@, k@) is None,
        },
{
    match kfind(rows, k) {
        Some(i) => {
            proof {
                assert(rows@[i as int].fields@.len() == 1);
            }
            Some(&rows[i].fields[0])
        },
        None => None,
    }
}


/// Read the settings back from configuration rows; `None` when some known
/// field is absent or has the wrong shape. Rows under unknown names are
/// ignored.
pub fn from_obj(rows: &Vec<Row>) -> (r: Option<Settings>)
    requires
        rows_unary(rows@),
    ensures
        r is Some <==> settings_shape_ok(rows@),
        match r {
            Some(s) => settings_repr(rows@, s),
            None => true,
        },
{
    let add_metadata = match cfg_get(rows, "addMetadata") {
        Some(JsonValue::Bool(b)) => *b,
        _ => {
            return None;
        },
    };
    let auto_check_update = match cfg_get(rows, "autoCheckUpdate") {
        Some(JsonValue::Bool(b)) => *b,
        _ => {
            return None;
        },
    };
    let auto_download = match cfg_get(rows, "autoDownload") {
        Some(JsonValue::Bool(b)) => *b,
        _ => {
            return None;
        },
    };
    let block_pcdn = match cfg_get(rows, "blockPcdn") {
        Some(JsonValue::Bool(b)) => *b,
        _ => {
            return None;
        },
    };
    let check_update = match cfg_get(rows, "checkUpdate") {
        Some(JsonValue::Bool(b)) => *b,
        _ => {
            return None;
        },
    };
    let clipboard = match cfg_get(rows, "clipboard") {
        Some(JsonValue::Bool(b)) => *b,
        _ => {
            return None;
        },
    };
    let convert = match cfg_get(rows, "convert") {
        Some(v) => match convert_from(v) {
            Some(c) => c,
            None => {
                return None;
            },
        },
        None => {
            return None;
        },
    };
    let dft = match cfg_get(rows, "default") {
        Some(v) => match dft_from(v) {
            Some(c) => c,
            None => {
                return None;
            },
        },
        None => {
            return None;
        },
    };
    let down_dir = match cfg_get(rows, "downDir") {
        Some(JsonValue::Str(t)) => t.clone(),
        _ => {
            return None;
        },
    };
    let drag_search = match cfg_get(rows, "dragSearch") {
        Some(JsonValue::Bool(b)) => *b,
        _ => {
            return None;
        },
    };
    let format = match cfg_get(rows, "format") {
        Some(v) => match format_from(v) {
            Some(c) => c,
            None => {
                return None;
            },
        },
        None => {
            return None;
        },
    };
    let language = match cfg_get(rows, "language") {
        Some(JsonValue::Str(t)) => t.clone(),
        _ => {
            return None;
        },
    };
    let max_conc = match cfg_get(rows, "maxConc") {
        Some(JsonValue::Int(x)) => *x,
        _ => {
            return None;
        },
    };
    let notify = match cfg_get(rows, "notify") {
        Some(JsonValue::Bool(b)) => *b,
        _ => {
            return None;
        },
    };
    let temp_dir = match cfg_get(rows, "tempDir") {
        Some(JsonValue::Str(t)) => t.clone(),
        _ => {
            return None;
        },
    };
    let theme_str = match cfg_get(rows, "theme") {
        Some(JsonValue::Str(t)) => t,
        _ => {
            return None;
        },
    };
    let theme: Theme = if str_eq(theme_str.as_str(), "auto") {
        Theme::Auto
    } else if str_eq(theme_str.as_str(), "light") {
        Theme::Light
    } else if str_eq(theme_str.as_str(), "dark") {
        Theme::Dark
    } else {
        proof {
            assert forall|s: Settings| !settings_repr(rows@, s) by {
                lemma_choice_names(s.theme, s.window_effect);
            }
        }
        return None;
    };
    let effect_str = match cfg_get(rows, "windowEffect") {
        Some(JsonValue::Str(t)) => t,
        _ => {
            return None;
        },
    };
    let window_effect: WindowEffect = if str_eq(effect_str.as_str(), "auto") {
        WindowEffect::Auto
    } else if str_eq(effect_str.as_str(), "mica") {
        WindowEffect::Mica
    } else if str_eq(effect_str.as_str(), "acrylic") {
        WindowEffect::Acrylic
    } else {
        proof {
            assert forall|s: Settings| !settings_repr(rows@, s) by {
                lemma_choice_names(s.theme, s.window_effect);
            }
        }
        return None;
    };
    let organize = match cfg_get(rows, "organize") {
        Some(v) => match organize_from(v) {
            Some(c) => c,
            None => {
                return None;
            },
        },
        None => {
            return None;
        },
    };
    let proxy = match cfg_get(rows, "proxy") {
        Some(v) => match proxy_from(v) {
            Some(c) => c,
            None => {
                return None;
            },
        },
        None => {
            return None;
        },
    };
    let out = Settings {
        add_metadata,
        auto_check_update,
        auto_download,
        block_pcdn,
        check_update,
        clipboard,
        convert,
        default: dft,
        down_dir,
        drag_search,
        format,
        language,
        max_conc,
        notify,
        temp_dir,
        theme,
        window_effect,
        organize,
        proxy,
    };
    proof {
        lemma_choice_names(out.theme, out.window_effect);
        assert(settings_repr(rows@, out));
    }
    Some(out)
}

/// Whether `s` is the compiled-in default settings value.
pub open spec fn is_default_settings(s: Settings) -> bool {
    &&& s.add_metadata == true
    &&& s.auto_check_update == true
    &&& s.auto_download == false
    &&& s.block_pcdn == true
    &&& s.check_update == true
    &&& s.clipboard == true
    &&& s.convert == (SettingsConvert { danmaku: false, mp3: false })
    &&& s.default == (SettingsDefault { res: 116, abr: 30280 })
    &&& s.down_dir@ == "Downloads"@
    &&& s.drag_search == true
    &&& s.format.series@ == "{title}"@
    &&& s.format.item@ == "{title}_{index}"@
    &&& s.language@ == "zh-CN"@
    &&& s.max_conc == 3
    &&& s.notify == true
    &&& s.temp_dir@ == "Temp"@
    &&& s.theme == Theme::Auto
    &&& s.window_effect == WindowEffect::Auto
    &&& s.organize == (SettingsOrganize { auto_rename: false, subdir: false })
    &&& s.proxy.address@ == ""@
    &&& s.proxy.enabled == false
}

/// The compiled-in default settings.
pub fn default_settings() -> (r: Settings)
    ensures
        is_default_settings(r),
{
    Settings {
        add_metadata: true,
        auto_check_update: true,
        auto_download: false,
        block_pcdn: true,
        check_update: true,
        clipboard: true,
        convert: SettingsConvert { danmaku: false, mp3: false },
        default: SettingsDefault { res: 116, abr: 30280 },
        down_dir: "Downloads".to_owned(),
        drag_search: true,
        format: SettingsFormat {
            series: "{title}".to_owned(),
            item: "{title}_{index}".to_owned(),
        },
        language: "zh-CN".to_owned(),
        max_conc: 3,
        notify: true,
        temp_dir: "Temp".to_owned(),
        theme: Theme::Auto,
        window_effect: WindowEffect::Auto,
        organize: SettingsOrganize { auto_rename: false, subdir: false },
        proxy: SettingsProxy { address: "".to_owned(), enabled: false },
    }
}

/// The process-wide published snapshot holder: replaced whole, never mutated
/// in place, so a reader always sees one complete value.
#[derive(Debug)]
pub struct ConfigCache {
    pub snapshot: Settings,
}

impl ConfigCache {
    /// Before the first load, the snapshot holds the compiled-in defaults.
    pub fn new() -> (r: ConfigCache)
        ensures
            is_default_settings(r.snapshot),
    {
        ConfigCache { snapshot: default_settings() }
    }
}

/// The current process-wide snapshot: a complete point-in-time copy.
pub fn read(cache: &ConfigCache) -> (r: Settings)
    ensures
        r == cache.snapshot,
{
    settings_clone(&cache.snapshot)
}

/// The columns of the config table, in stored order.
#[derive(Clone, Copy, Debug, PartialEq, Eq, Structural)]
pub enum Config {
    Table,
    Name,
    Value,
}

/// The config table: one row per top-level settings field.
pub struct ConfigTable;

impl TableSpec for ConfigTable {
    open spec fn name_spec(&self) -> Seq<char> {
        "config"@
    }

    open spec fn latest_spec(&self) -> i64 {
        1
    }

    open spec fn migrate_ok(&self, old_rows: Seq<Row>) -> bool {
        true
    }

    open spec fn migrate_model(&self, old_rows: Seq<Row>) -> Seq<Row> {
        Seq::empty()
    }

    fn name(&self) -> (r: String) {
        "config".to_owned()
    }

    fn latest(&self) -> (r: i64) {
        1
    }

    open spec fn create_stmt_spec(&self) -> Seq<char> {
        "CREATE TABLE IF NOT EXISTS \"config\" ( \"name\" text NOT NULL PRIMARY KEY, \"value\" text NOT NULL )"@
    }

    fn create_stmt(&self) -> (r: String) {
        "CREATE TABLE IF NOT EXISTS \"config\" ( \"name\" text NOT NULL PRIMARY KEY, \"value\" text NOT NULL )".to_owned()
    }

    fn migrate_data(&self, old_rows: &TableData, fresh: &mut TableData) -> (r: Result<
        (),
        StoreError,
    >) {
        proof {
            assert(fresh.rows@ =~= Seq::<Row>::empty());
        }
        Ok(())
    }
}

/// The per-platform base directories the path resolver supplies.
#[derive(Debug)]
pub struct AppDirs {
    pub app_log_dir: String,
    pub app_cache_dir: String,
    pub app_local_data_dir: String,
    pub app_data_dir: String,
}

impl Settings {
    /// The working temp directory: the configured temp directory with the
    /// application-specific subdirectory appended.
    pub fn temp_dir(&self) -> (r: String)
        ensures
            r@ == self.temp_dir@ + "/com.btjawa.bilitools"@,
    {
        self.temp_dir.clone().concat("/com.btjawa.bilitools")
    }

    /// Resolve a logical cache category to a platform path, branching by
    /// host operating system for the webview category only.
    pub fn get_cache(&self, key: &CacheKey, os: &str, dirs: &AppDirs) -> (r: Result<
        String,
        StoreError,
    >)
        ensures
            match r {
                Ok(p) => p@ == cache_path(*self, *key, os@, dirs.app_log_dir@,
                    dirs.app_cache_dir@, dirs.app_local_data_dir@, dirs.app_data_dir@),
                Err(_) => false,
            },
    {
        match key {
            CacheKey::Log => Ok(dirs.app_log_dir.clone()),
            CacheKey::Temp => Ok(self.temp_dir()),
            CacheKey::Webview => {
                if str_eq(os, "macos") {
                    Ok(dirs.app_cache_dir.clone().concat("/../WebKit/BiliTools/WebsiteData"))
                } else if str_eq(os, "linux") {
                    Ok(dirs.app_cache_dir.clone().concat("/bilitools"))
                } else {
                    Ok(dirs.app_local_data_dir.clone().concat("/EBWebView"))
                }
            },
            CacheKey::Database => Ok(dirs.app_data_dir.clone().concat("/Storage")),
        }
    }
}

/// The path `get_cache` resolves for a category on a host.
pub open spec fn cache_path(
    s: Settings,
    key: CacheKey,
    os: Seq<char>,
    log_dir: Seq<char>,
    cache_dir: Seq<char>,
    local_data_dir: Seq<char>,
    data_dir: Seq<char>,
) -> Seq<char> {
    match key {
        CacheKey::Log => log_dir,
        CacheKey::Temp => s.temp_dir@ + "/com.btjawa.bilitools"@,
        CacheKey::Webview => if os == "macos"@ {
            cache_dir + "/../WebKit/BiliTools/WebsiteData"@
        } else if os == "linux"@ {
            cache_dir + "/bilitools"@
        } else {
            local_data_dir + "/EBWebView"@
        },
        CacheKey::Database => data_dir + "/Storage"@,
    }
}


/// The rows of the config table, or none when it has not been created.
pub open spec fn cfg_rows(db: Database) -> Seq<Row> {
    crate::db::prior_rows(db, "config"@)
}

/// Unique field names in the config table.
pub open spec fn cfg_wf(db: Database) -> bool {
    kwf(cfg_rows(db))
}

/// Every row value that is an object has distinct keys inside.
pub open spec fn rows_deep(o: Seq<Row>) -> bool {
    forall|j: int|
        0 <= j < o.len() ==> match #[trigger] o[j].fields@[0] {
            JsonValue::Obj(e) => kwf(e@),
            _ => true,
        }
}

/// Persist one field: insert-or-replace the row named `name` with `value`.
pub fn insert(db: &mut Database, name: String, value: JsonValue) -> (r: Result<(), StoreError>)
    requires
        db_wf(*old(db)),
        cfg_wf(*old(db)),
        rows_unary(cfg_rows(*old(db))),
    ensures
        db_wf(*final(db)),
        cfg_wf(*final(db)),
        rows_unary(cfg_rows(*final(db))),
        final(db).meta == old(db).meta,
        forall|n: Seq<char>|
            n != "config"@ ==> kget(final(db).tables@, n) == kget(old(db).tables@, n),
        match r {
            Ok(()) => {
                &&& khas(old(db).tables@, "config"@)
                &&& khas(final(db).tables@, "config"@)
                &&& cfg_value(cfg_rows(*final(db)), name@) == Some(value)
                &&& forall|k: Seq<char>|
                    k != name@ ==> kget(cfg_rows(*final(db)), k) == kget(cfg_rows(*old(db)), k)
                &&& forall|k: Seq<char>|
                    khas(cfg_rows(*final(db)), k) <==> khas(cfg_rows(*old(db)), k) || k == name@
            },
            Err(e) => {
                &&& e == StoreError::QueryFailure
                &&& !khas(old(db).tables@, "config"@)
                &&& final(db).tables@ == old(db).tables@
            },
        },
{
    let ghost nm = name@;
    let mut fields: Vec<JsonValue> = Vec::new();
    fields.push(value);
    let row = Row { key: name, fields };
    let ti = match kfind(&db.tables, "config") {
        Some(i) => i,
        None => {
            return Err(StoreError::QueryFailure);
        },
    };
    let ghost orig_tables = db.tables@;
    let ghost orig_rows = cfg_rows(*db);
    let mut pair = db.tables.remove(ti);
    kupsert(&mut pair.1.rows, row);
    db.tables.insert(ti, pair);
    proof {
        assert(db.tables@ =~= orig_tables.update(ti as int, db.tables@[ti as int]));
        crate::kv::lemma_kidx(orig_tables, "config"@);
        crate::db::lemma_tables_replace(orig_tables, db.tables@, ti as int);
        assert(rows_unary(cfg_rows(*db))) by {
            crate::kv::lemma_kidx(orig_rows, nm);
            if khas(orig_rows, nm) {
                assert forall|j: int| 0 <= j < cfg_rows(*db).len() implies #[trigger] cfg_rows(
                    *db,
                )[j].fields@.len() == 1 by {
                    if j != kidx(orig_rows, nm) {
                        assert(cfg_rows(*db)[j] == orig_rows[j]);
                    }
                }
            } else {
                assert forall|j: int| 0 <= j < cfg_rows(*db).len() implies #[trigger] cfg_rows(
                    *db,
                )[j].fields@.len() == 1 by {
                    if j < orig_rows.len() {
                        assert(cfg_rows(*db)[j] == orig_rows[j]);
                    }
                }
            }
        }
    }
    Ok(())
}

/// Copy the missing keys of `add` into `target`; keys already present are
/// never overwritten.
fn sub_merge(target: &mut Vec<(String, JsonValue)>, add: Vec<(String, JsonValue)>)
    requires
        kwf(add@),
    ensures
        forall|sk: Seq<char>| #![all_triggers]
            obj_get(final(target)@, sk) == (if khas(old(target)@, sk) {
                obj_get(old(target)@, sk)
            } else {
                obj_get(add@, sk)
            }),
        forall|sk: Seq<char>| #![all_triggers]
            khas(final(target)@, sk) <==> khas(old(target)@, sk) || khas(add@, sk),
        kwf(old(target)@) ==> kwf(final(target)@),
{
    let ghost t0 = target@;
    let ghost a0 = add@;
    let mut add = add;
    let ghost mut ai: int = 0;
    while add.len() > 0
        invariant
            kwf(a0),
            0 <= ai <= a0.len(),
            add@ == a0.skip(ai),
            forall|sk: Seq<char>| #![all_triggers]
                obj_get(target@, sk) == (if khas(t0, sk) {
                    obj_get(t0, sk)
                } else {
                    obj_get(a0.take(ai), sk)
                }),
            forall|sk: Seq<char>| #![all_triggers]
                khas(target@, sk) <==> khas(t0, sk) || khas(a0.take(ai), sk),
            kwf(t0) ==> kwf(target@),
        decreases add@.len(),
    {
        let e = add.remove(0);
        proof {
            assert(a0.skip(ai)[0] == a0[ai]);
            assert(e == a0[ai]);
            assert(add@ =~= a0.skip(ai + 1));
        }
        let ghost ek = e.key_view();
        let ghost tprev = target@;
        let present = match kfind(&*target, e.0.as_str()) {
            Some(_) => true,
            None => false,
        };
        if !present {
            kupsert(target, e);
        }
        proof {
            crate::kv::lemma_kidx(a0.take(ai), ek);
            assert(!khas(a0.take(ai), ek)) by {
                if kidx(a0.take(ai), ek) >= 0 {
                    let m = kidx(a0.take(ai), ek);
                    assert(a0.take(ai)[m] == a0[m]);
                }
            }
            assert(a0.take(ai + 1) =~= a0.take(ai).push(a0[ai]));
            assert forall|sk: Seq<char>| true implies #[trigger] kget(a0.take(ai + 1), sk) == (
            if sk == ek {
                Some(a0[ai])
            } else {
                kget(a0.take(ai), sk)
            }) by {
                crate::kv::lemma_kidx_push(a0.take(ai), a0[ai], sk);
                crate::kv::lemma_kidx(a0.take(ai), sk);
                if sk != ek && kidx(a0.take(ai), sk) >= 0 {
                    assert(a0.take(ai + 1)[kidx(a0.take(ai), sk)] == a0.take(ai)[kidx(
                        a0.take(ai),
                        sk,
                    )]);
                }
                if sk == ek {
                    assert(a0.take(ai + 1)[a0.take(ai).len() as int] == a0[ai]);
                }
            }
            if present {
                crate::kv::lemma_kidx(tprev, ek);
                assert(khas(tprev, ek));
                assert(khas(t0, ek));
            }
            assert forall|sk: Seq<char>| true implies (#[trigger] khas(target@, sk) <==> khas(
                t0,
                sk,
            ) || khas(a0.take(ai + 1), sk)) by {
                assert(khas(tprev, sk) <==> khas(t0, sk) || khas(a0.take(ai), sk));
                if sk == ek {
                    assert(khas(a0.take(ai + 1), sk));
                    assert(khas(target@, sk));
                } else {
                    assert(kget(a0.take(ai + 1), sk) == kget(a0.take(ai), sk));
                    if present {
                        assert(target@ == tprev);
                    }
                }
            }
            assert forall|sk: Seq<char>| true implies #[trigger] obj_get(target@, sk) == (if khas(
                t0,
                sk,
            ) {
                obj_get(t0, sk)
            } else {
                obj_get(a0.take(ai + 1), sk)
            }) by {
                assert(obj_get(tprev, sk) == (if khas(t0, sk) {
                    obj_get(t0, sk)
                } else {
                    obj_get(a0.take(ai), sk)
                }));
                if sk == ek {
                    if present {
                        assert(target@ == tprev);
                        assert(khas(t0, ek));
                    } else {
                        assert(!khas(tprev, ek));
                        assert(!khas(t0, ek));
                        assert(kget(target@, ek) == Some(a0[ai]));
                        assert(kget(a0.take(ai + 1), ek) == Some(a0[ai]));
                    }
                } else {
                    assert(kget(a0.take(ai + 1), sk) == kget(a0.take(ai), sk));
                    if present {
                        assert(target@ == tprev);
                    } else {
                        assert(kget(target@, sk) == kget(tprev, sk));
                    }
                }
            }
            ai = ai + 1;
        }
    }
    proof {
        assert(a0.take(ai) =~= a0);
    }
}

/// How one stored field relates to its pre-merge value: where both the
/// stored value and the default are objects, the merged object keeps every
/// stored key and gains the default's missing keys; otherwise the stored
/// value is untouched.
pub open spec fn merged_field(ov: JsonValue, dv: Option<JsonValue>, nv: JsonValue) -> bool {
    match dv {
        Some(JsonValue::Obj(dsub)) => match ov {
            JsonValue::Obj(osub) => match nv {
                JsonValue::Obj(nsub) => forall|sk: Seq<char>| #![all_triggers]
                    (obj_get(nsub@, sk) == (if khas(osub@, sk) {
                        obj_get(osub@, sk)
                    } else {
                        obj_get(dsub@, sk)
                    })) && (khas(nsub@, sk) <==> khas(osub@, sk) || khas(dsub@, sk)),
                _ => false,
            },
            _ => nv == ov,
        },
        _ => nv == ov,
    }
}

/// How a whole set of configuration rows relates to its pre-merge state
/// after merging the defaults `d` in: keys are the union, an absent default
/// is inserted verbatim, and a present key follows `merged_field`.
pub open spec fn merge_rel(old_rows: Seq<Row>, d: Seq<Row>, new_rows: Seq<Row>) -> bool {
    &&& forall|k: Seq<char>| #![all_triggers]
        khas(new_rows, k) <==> khas(old_rows, k) || khas(d, k)
    &&& forall|k: Seq<char>| #![all_triggers]
        !khas(old_rows, k) && khas(d, k) ==> cfg_value(new_rows, k) == cfg_value(d, k)
    &&& forall|k: Seq<char>| #![all_triggers]
        khas(old_rows, k) ==> match (cfg_value(old_rows, k), cfg_value(new_rows, k)) {
            (Some(ov), Some(nv)) => merged_field(ov, cfg_value(d, k), nv),
            _ => false,
        }
}

/// Merge the compiled defaults into the stored rows: insert each absent
/// default, and for a field where both sides are objects copy in only the
/// missing nested keys, never overwriting an existing one.
pub fn merge_defaults(local: &mut Vec<Row>, defaults: Vec<Row>)
    requires
        kwf(old(local)@),
        rows_unary(old(local)@),
        kwf(defaults@),
        rows_unary(defaults@),
        rows_deep(defaults@),
    ensures
        kwf(final(local)@),
        rows_unary(final(local)@),
        merge_rel(old(local)@, defaults@, final(local)@),
{
    let ghost l0 = local@;
    let ghost d0 = defaults@;
    let mut defaults = defaults;
    let ghost mut di: int = 0;
    while defaults.len() > 0
        invariant
            kwf(d0),
            rows_unary(d0),
            rows_deep(d0),
            0 <= di <= d0.len(),
            defaults@ == d0.skip(di),
            kwf(local@),
            rows_unary(local@),
            merge_rel(l0, d0.take(di), local@),
        decreases defaults@.len(),
    {
        let d = defaults.remove(0);
        proof {
            assert(d0.skip(di)[0] == d0[di]);
            assert(d == d0[di]);
            assert(defaults@ =~= d0.skip(di + 1));
            crate::kv::lemma_kidx(d0.take(di), d.key@);
            assert(!khas(d0.take(di), d.key@)) by {
                if kidx(d0.take(di), d.key@) >= 0 {
                    let m = kidx(d0.take(di), d.key@);
                    assert(d0.take(di)[m] == d0[m]);
                }
            }
        }
        let ghost dk = d.key@;
        let ghost lprev = local@;
        let pos = kfind(&*local, d.key.as_str());
        match pos {
            None => {
                proof {
                    assert(!khas(lprev, dk));
                    assert(!khas(l0, dk));
                }
                kupsert(local, d);
            },
            Some(i) => {
                let mut entry = local.remove(i);
                let ghost ov = entry.fields@[0];
                let ev = entry.fields.remove(0);
                let mut dmut = d;
                let dv = dmut.fields.remove(0);
                proof {
                    assert(dv == d0[di].fields@[0]);
                }
                match (dv, ev) {
                    (JsonValue::Obj(dsub), JsonValue::Obj(osub)) => {
                        let mut osub2 = osub;
                        proof {
                            assert(kwf(dsub@)) by {
                                assert(d0[di].fields@[0] == JsonValue::Obj(dsub));
                            }
                        }
                        sub_merge(&mut osub2, dsub);
                        entry.fields.push(JsonValue::Obj(osub2));
                    },
                    (dv2, ev2) => {
                        entry.fields.push(ev2);
                    },
                }
                local.insert(i, entry);
                proof {
                    crate::kv::lemma_kidx(lprev, dk);
                    assert(lprev[i as int].key_view() == dk);
                    assert(local@ =~= lprev.update(i as int, local@[i as int]));
                    assert(local@[i as int].key_view() == dk);
                    assert(local@[i as int].fields@.len() == 1);
                    assert forall|k2: Seq<char>| true implies kidx(local@, k2) == kidx(
                        lprev,
                        k2,
                    ) by {
                        crate::kv::lemma_kidx_same_keys(local@, lprev, k2);
                    }
                    crate::kv::lemma_kidx(lprev, dk);
                    assert(kidx(lprev, dk) == i as int);
                    assert forall|k2: Seq<char>| k2 != dk implies kget(local@, k2) == kget(
                        lprev,
                        k2,
                    ) by {
                        crate::kv::lemma_kidx(local@, k2);
                        if kidx(local@, k2) >= 0 {
                            assert(local@[kidx(local@, k2)].key_view() == k2);
                            assert(kidx(local@, k2) != i as int);
                        }
                    }
                    assert(kget(local@, dk) == Some(local@[i as int]));
                    assert forall|m: int, n: int|
                        0 <= m < n < local@.len() implies local@[m].key_view()
                        != local@[n].key_view() by {}
                    assert forall|j: int|
                        0 <= j < local@.len() implies #[trigger] local@[j].fields@.len()
                        == 1 by {
                        if j != i as int {
                            assert(local@[j] == lprev[j]);
                        }
                    }
                }
            },
        }
        proof {
            assert(d0.take(di + 1) =~= d0.take(di).push(d0[di]));
            assert forall|k: Seq<char>| true implies #[trigger] kget(d0.take(di + 1), k) == (
            if k == dk {
                Some(d0[di])
            } else {
                kget(d0.take(di), k)
            }) by {
                crate::kv::lemma_kidx_push(d0.take(di), d0[di], k);
                crate::kv::lemma_kidx(d0.take(di), k);
                if k != dk && kidx(d0.take(di), k) >= 0 {
                    assert(d0.take(di + 1)[kidx(d0.take(di), k)] == d0.take(di)[kidx(
                        d0.take(di),
                        k,
                    )]);
                }
                if k == dk {
                    assert(d0.take(di + 1)[d0.take(di).len() as int] == d0[di]);
                }
            }
            assert forall|k: Seq<char>| true implies (#[trigger] khas(local@, k) <==> khas(
                l0,
                k,
            ) || khas(d0.take(di + 1), k)) by {
                assert(khas(lprev, k) <==> khas(l0, k) || khas(d0.take(di), k));
                if k == dk {
                    assert(khas(d0.take(di + 1), k));
                    assert(khas(local@, k));
                } else {
                    assert(kget(d0.take(di + 1), k) == kget(d0.take(di), k));
                    assert(kget(local@, k) == kget(lprev, k));
                }
            }
            assert forall|k: Seq<char>|
                !khas(l0, k) && #[trigger] khas(d0.take(di + 1), k) implies cfg_value(local@, k)
                == cfg_value(d0.take(di + 1), k) by {
                assert(khas(lprev, k) <==> khas(l0, k) || khas(d0.take(di), k));
                if k == dk {
                    assert(!khas(d0.take(di), dk));
                    assert(!khas(lprev, dk));
                    assert(kget(local@, dk) == Some(d0[di]));
                    assert(kget(d0.take(di + 1), dk) == Some(d0[di]));
                } else {
                    assert(kget(d0.take(di + 1), k) == kget(d0.take(di), k));
                    assert(kget(local@, k) == kget(lprev, k));
                    if khas(d0.take(di), k) {
                        assert(cfg_value(lprev, k) == cfg_value(d0.take(di), k));
                    }
                }
            }
            assert forall|k: Seq<char>| #[trigger] khas(l0, k) implies match (
            cfg_value(l0, k), cfg_value(local@, k)) {
                (Some(ovv), Some(nvv)) => merged_field(ovv, cfg_value(d0.take(di + 1), k), nvv),
                _ => false,
            } by {
                assert(khas(lprev, k) <==> khas(l0, k) || khas(d0.take(di), k));
                assert(match (cfg_value(l0, k), cfg_value(lprev, k)) {
                    (Some(ovv), Some(nvv)) => merged_field(ovv, cfg_value(d0.take(di), k), nvv),
                    _ => false,
                });
                if k == dk {
                    assert(!khas(d0.take(di), dk));
                    assert(kget(d0.take(di + 1), dk) == Some(d0[di]));
                } else {
                    assert(kget(d0.take(di + 1), k) == kget(d0.take(di), k));
                    assert(kget(local@, k) == kget(lprev, k));
                }
            }
            assert(merge_rel(l0, d0.take(di + 1), local@));
            di = di + 1;
        }
    }
    proof {
        assert(d0.take(di) =~= d0);
    }
}


/// Whether `o` is the compiled defaults in stored form: exactly the known
/// field names, each carrying its default value.
pub open spec fn is_default_obj(o: Seq<Row>) -> bool {
    &&& kwf(o)
    &&& rows_unary(o)
    &&& rows_deep(o)
    &&& (forall|k: Seq<char>| #[trigger] khas(o, k) <==> is_known_key(k))
    &&& (match cfg_value(o, "addMetadata"@) {
        Some(JsonValue::Bool(b)) => b,
        _ => false,
    })
    &&& (match cfg_value(o, "autoCheckUpdate"@) {
        Some(JsonValue::Bool(b)) => b,
        _ => false,
    })
    &&& (match cfg_value(o, "autoDownload"@) {
        Some(JsonValue::Bool(b)) => !b,
        _ => false,
    })
    &&& (match cfg_value(o, "blockPcdn"@) {
        Some(JsonValue::Bool(b)) => b,
        _ => false,
    })
    &&& (match cfg_value(o, "checkUpdate"@) {
        Some(JsonValue::Bool(b)) => b,
        _ => false,
    })
    &&& (match cfg_value(o, "clipboard"@) {
        Some(JsonValue::Bool(b)) => b,
        _ => false,
    })
    &&& (match cfg_value(o, "convert"@) {
        Some(v) => convert_repr(v, SettingsConvert { danmaku: false, mp3: false })
            && default_pair_keys(v, "danmaku"@, "mp3"@),
        None => false,
    })
    &&& (match cfg_value(o, "default"@) {
        Some(v) => dft_repr(v, SettingsDefault { res: 116, abr: 30280 }) && default_pair_keys(
            v,
            "res"@,
            "abr"@,
        ),
        None => false,
    })
    &&& (match cfg_value(o, "downDir"@) {
        Some(JsonValue::Str(t)) => t@ == "Downloads"@,
        _ => false,
    })
    &&& (match cfg_value(o, "dragSearch"@) {
        Some(JsonValue::Bool(b)) => b,
        _ => false,
    })
    &&& (match cfg_value(o, "format"@) {
        Some(v) => (match v {
            JsonValue::Obj(e) => {
                &&& (match obj_get(e@, "series"@) {
                    Some(JsonValue::Str(t)) => t@ == "{title}"@,
                    _ => false,
                })
                &&& (match obj_get(e@, "item"@) {
                    Some(JsonValue::Str(t)) => t@ == "{title}_{index}"@,
                    _ => false,
                })
            },
            _ => false,
        }) && default_pair_keys(v, "series"@, "item"@),
        None => false,
    })
    &&& (match cfg_value(o, "language"@) {
        Some(JsonValue::Str(t)) => t@ == "zh-CN"@,
        _ => false,
    })
    &&& (match cfg_value(o, "maxConc"@) {
        Some(JsonValue::Int(x)) => x == 3,
        _ => false,
    })
    &&& (match cfg_value(o, "notify"@) {
        Some(JsonValue::Bool(b)) => b,
        _ => false,
    })
    &&& (match cfg_value(o, "tempDir"@) {
        Some(JsonValue::Str(t)) => t@ == "Temp"@,
        _ => false,
    })
    &&& (match cfg_value(o, "theme"@) {
        Some(JsonValue::Str(t)) => t@ == "auto"@,
        _ => false,
    })
    &&& (match cfg_value(o, "windowEffect"@) {
        Some(JsonValue::Str(t)) => t@ == "auto"@,
        _ => false,
    })
    &&& (match cfg_value(o, "organize"@) {
        Some(v) => organize_repr(v, SettingsOrganize { auto_rename: false, subdir: false })
            && default_pair_keys(v, "autoRename"@, "subdir"@),
        None => false,
    })
    &&& (match cfg_value(o, "proxy"@) {
        Some(v) => (match v {
            JsonValue::Obj(e) => {
                &&& (match obj_get(e@, "address"@) {
                    Some(JsonValue::Str(t)) => t@ == ""@,
                    _ => false,
                })
                &&& (match obj_get(e@, "enabled"@) {
                    Some(JsonValue::Bool(b)) => !b,
                    _ => false,
                })
            },
            _ => false,
        }) && default_pair_keys(v, "address"@, "enabled"@),
        None => false,
    })
}

/// Whether `v` is an object holding exactly the two given keys.
pub open spec fn default_pair_keys(v: JsonValue, k1: Seq<char>, k2: Seq<char>) -> bool {
    match v {
        JsonValue::Obj(e) => forall|sk: Seq<char>| #[trigger] khas(e@, sk) <==> sk == k1 || sk == k2,
        _ => false,
    }
}

/// A two-entry object, for a nested default.
fn pair_obj(k1: &str, v1: JsonValue, k2: &str, v2: JsonValue) -> (r: JsonValue)
    requires
        k1@ != k2@,
    ensures
        (match r {
            JsonValue::Obj(e) => {
                &&& kwf(e@)
                &&& obj_get(e@, k1@) == Some(v1)
                &&& obj_get(e@, k2@) == Some(v2)
            },
            _ => false,
        }),
        default_pair_keys(r, k1@, k2@),
{
    let mut entries: Vec<(String, JsonValue)> = Vec::new();
    entries.push((k1.to_owned(), v1));
    entries.push((k2.to_owned(), v2));
    proof {
        let e = entries@;
        crate::kv::lemma_kidx(e, k1@);
        crate::kv::lemma_kidx(e, k2@);
        assert(e[0].key_view() == k1@);
        assert(e[1].key_view() == k2@);
        assert(kidx(e, k1@) == 0);
        assert(kidx(e, k2@) == 1);
        assert forall|sk: Seq<char>| true implies (#[trigger] khas(e, sk) <==> sk == k1@ || sk
            == k2@) by {
            crate::kv::lemma_kidx(e, sk);
        }
    }
    JsonValue::Obj(entries)
}

/// The compiled defaults in stored form, one row per known field.
#[verifier::rlimit(100)]
pub fn default_obj() -> (r: Vec<Row>)
    ensures
        is_default_obj(r@),
{
    proof {
        reveal_strlit("danmaku");
        reveal_strlit("mp3");
        reveal_strlit("res");
        reveal_strlit("abr");
        reveal_strlit("series");
        reveal_strlit("item");
        reveal_strlit("autoRename");
        reveal_strlit("subdir");
        reveal_strlit("address");
        reveal_strlit("enabled");
        assert("danmaku"@.len() != "mp3"@.len());
        assert("res"@[0] != "abr"@[0]);
        assert("series"@.len() != "item"@.len());
        assert("autoRename"@.len() != "subdir"@.len());
        assert("address"@[0] == 'a' && "enabled"@[0] == 'e');
    }
    let convert = pair_obj("danmaku", JsonValue::Bool(false), "mp3", JsonValue::Bool(false));
    let dft = pair_obj("res", JsonValue::Int(116), "abr", JsonValue::Int(30280));
    let format = pair_obj(
        "series",
        JsonValue::Str("{title}".to_owned()),
        "item",
        JsonValue::Str("{title}_{index}".to_owned()),
    );
    let organize = pair_obj("autoRename", JsonValue::Bool(false), "subdir", JsonValue::Bool(false));
    let proxy = pair_obj(
        "address",
        JsonValue::Str("".to_owned()),
        "enabled",
        JsonValue::Bool(false),
    );
    let mut rows: Vec<Row> = Vec::new();
    rows.push(Row { key: "addMetadata".to_owned(), fields: vec![JsonValue::Bool(true)] });
    rows.push(Row { key: "autoCheckUpdate".to_owned(), fields: vec![JsonValue::Bool(true)] });
    rows.push(Row { key: "autoDownload".to_owned(), fields: vec![JsonValue::Bool(false)] });
    rows.push(Row { key: "blockPcdn".to_owned(), fields: vec![JsonValue::Bool(true)] });
    rows.push(Row { key: "checkUpdate".to_owned(), fields: vec![JsonValue::Bool(true)] });
    rows.push(Row { key: "clipboard".to_owned(), fields: vec![JsonValue::Bool(true)] });
    rows.push(Row { key: "convert".to_owned(), fields: vec![convert] });
    rows.push(Row { key: "default".to_owned(), fields: vec![dft] });
    rows.push(
        Row { key: "downDir".to_owned(), fields: vec![JsonValue::Str("Downloads".to_owned())] },
    );
    rows.push(Row { key: "dragSearch".to_owned(), fields: vec![JsonValue::Bool(true)] });
    rows.push(Row { key: "format".to_owned(), fields: vec![format] });
    rows.push(Row { key: "language".to_owned(), fields: vec![JsonValue::Str("zh-CN".to_owned())] });
    rows.push(Row { key: "maxConc".to_owned(), fields: vec![JsonValue::Int(3)] });
    rows.push(Row { key: "notify".to_owned(), fields: vec![JsonValue::Bool(true)] });
    rows.push(Row { key: "tempDir".to_owned(), fields: vec![JsonValue::Str("Temp".to_owned())] });
    rows.push(Row { key: "theme".to_owned(), fields: vec![JsonValue::Str("auto".to_owned())] });
    rows.push(
        Row { key: "windowEffect".to_owned(), fields: vec![JsonValue::Str("auto".to_owned())] },
    );
    rows.push(Row { key: "organize".to_owned(), fields: vec![organize] });
    rows.push(Row { key: "proxy".to_owned(), fields: vec![proxy] });
    proof {
        reveal_strlit("addMetadata");
        reveal_strlit("autoCheckUpdate");
        reveal_strlit("autoDownload");
        reveal_strlit("blockPcdn");
        reveal_strlit("checkUpdate");
        reveal_strlit("clipboard");
        reveal_strlit("convert");
        reveal_strlit("default");
        reveal_strlit("downDir");
        reveal_strlit("dragSearch");
        reveal_strlit("format");
        reveal_strlit("language");
        reveal_strlit("maxConc");
        reveal_strlit("notify");
        reveal_strlit("tempDir");
        reveal_strlit("theme");
        reveal_strlit("windowEffect");
        reveal_strlit("organize");
        reveal_strlit("proxy");
        assert("theme"@[0] == 't' && "proxy"@[0] == 'p');
        assert("format"@[0] == 'f' && "notify"@[0] == 'n');
        assert("convert"@[0] == 'c' && "default"@[0] == 'd' && "downDir"@[0] == 'd'
            && "maxConc"@[0] == 'm' && "tempDir"@[0] == 't');
        assert("default"@[1] == 'e' && "downDir"@[1] == 'o');
        assert("language"@[0] == 'l' && "organize"@[0] == 'o');
        assert("blockPcdn"@[0] == 'b' && "clipboard"@[0] == 'c');
        assert("addMetadata"@[0] == 'a' && "checkUpdate"@[0] == 'c');
        assert("autoDownload"@[0] == 'a' && "windowEffect"@[0] == 'w');
        let o = rows@;
        assert(o.len() == 19);
        assert(o[0].key_view() == "addMetadata"@);
        assert(o[1].key_view() == "autoCheckUpdate"@);
        assert(o[2].key_view() == "autoDownload"@);
        assert(o[3].key_view() == "blockPcdn"@);
        assert(o[4].key_view() == "checkUpdate"@);
        assert(o[5].key_view() == "clipboard"@);
        assert(o[6].key_view() == "convert"@);
        assert(o[7].key_view() == "default"@);
        assert(o[8].key_view() == "downDir"@);
        assert(o[9].key_view() == "dragSearch"@);
        assert(o[10].key_view() == "format"@);
        assert(o[11].key_view() == "language"@);
        assert(o[12].key_view() == "maxConc"@);
        assert(o[13].key_view() == "notify"@);
        assert(o[14].key_view() == "tempDir"@);
        assert(o[15].key_view() == "theme"@);
        assert(o[16].key_view() == "windowEffect"@);
        assert(o[17].key_view() == "organize"@);
        assert(o[18].key_view() == "proxy"@);
        assert(kwf(o)) by {
            assert forall|m: int, n2: int|
                0 <= m < n2 < o.len() implies o[m].key_view() != o[n2].key_view() by {}
        }
        assert(rows_unary(o)) by {
            assert forall|j: int| 0 <= j < o.len() implies #[trigger] o[j].fields@.len() == 1 by {}
        }
        assert(rows_deep(o));
        crate::kv::lemma_kidx(o, "addMetadata"@);
        crate::kv::lemma_kidx(o, "autoCheckUpdate"@);
        crate::kv::lemma_kidx(o, "autoDownload"@);
        crate::kv::lemma_kidx(o, "blockPcdn"@);
        crate::kv::lemma_kidx(o, "checkUpdate"@);
        crate::kv::lemma_kidx(o, "clipboard"@);
        crate::kv::lemma_kidx(o, "convert"@);
        crate::kv::lemma_kidx(o, "default"@);
        crate::kv::lemma_kidx(o, "downDir"@);
        crate::kv::lemma_kidx(o, "dragSearch"@);
        crate::kv::lemma_kidx(o, "format"@);
        crate::kv::lemma_kidx(o, "language"@);
        crate::kv::lemma_kidx(o, "maxConc"@);
        crate::kv::lemma_kidx(o, "notify"@);
        crate::kv::lemma_kidx(o, "tempDir"@);
        crate::kv::lemma_kidx(o, "theme"@);
        crate::kv::lemma_kidx(o, "windowEffect"@);
        crate::kv::lemma_kidx(o, "organize"@);
        crate::kv::lemma_kidx(o, "proxy"@);
        assert forall|k: Seq<char>| true implies (#[trigger] khas(o, k) <==> is_known_key(k)) by {
            crate::kv::lemma_kidx(o, k);
        }
    }
    rows
}

/// Run once at startup: read all persisted rows, merge the compiled
/// defaults in (inserting absent fields and the missing nested keys of
/// object fields, never overwriting stored data), persist the merged rows,
/// and publish the resulting typed settings as the new snapshot. A merged
/// state that does not deserialize aborts the load and leaves the snapshot
/// unchanged; the published snapshot is replaced in one step, never partly.
pub fn load(db: &mut Database, cache: &mut ConfigCache) -> (r: Result<(), StoreError>)
    requires
        db_wf(*old(db)),
        cfg_wf(*old(db)),
    ensures
        db_wf(*final(db)),
        cfg_wf(*final(db)),
        final(db).meta == old(db).meta,
        forall|n: Seq<char>|
            n != "config"@ ==> kget(final(db).tables@, n) == kget(old(db).tables@, n),
        match r {
            Ok(()) => {
                &&& khas(old(db).tables@, "config"@)
                &&& khas(final(db).tables@, "config"@)
                &&& rows_unary(cfg_rows(*old(db)))
                &&& rows_unary(cfg_rows(*final(db)))
                &&& exists|d: Seq<Row>|
                    is_default_obj(d) && #[trigger] merge_rel(
                        cfg_rows(*old(db)),
                        d,
                        cfg_rows(*final(db)),
                    )
                &&& settings_repr(cfg_rows(*final(db)), final(cache).snapshot)
            },
            Err(e) => {
                &&& final(cache).snapshot == old(cache).snapshot
                &&& (e == StoreError::QueryFailure || e == StoreError::SerializationFailure)
                &&& (e == StoreError::QueryFailure ==> (!khas(old(db).tables@, "config"@)
                    || !rows_unary(cfg_rows(*old(db)))) && final(db).tables@ == old(db).tables@)
                &&& (e == StoreError::SerializationFailure ==> {
                    &&& khas(old(db).tables@, "config"@)
                    &&& rows_unary(cfg_rows(*old(db)))
                    &&& (exists|d: Seq<Row>|
                        is_default_obj(d) && #[trigger] merge_rel(
                            cfg_rows(*old(db)),
                            d,
                            cfg_rows(*final(db)),
                        ))
                    &&& !settings_shape_ok(cfg_rows(*final(db)))
                })
            },
        },
{
    let ti = match kfind(&db.tables, "config") {
        Some(i) => i,
        None => {
            return Err(StoreError::QueryFailure);
        },
    };
    proof {
        crate::kv::lemma_kidx(db.tables@, "config"@);
        assert(cfg_rows(*db) == db.tables@[ti as int].1.rows@);
    }
    let n = db.tables[ti].1.rows.len();
    let mut j: usize = 0;
    while j < n
        invariant
            *db == *old(db),
            *cache == *old(cache),
            db_wf(*db),
            cfg_wf(*db),
            khas(old(db).tables@, "config"@),
            0 <= ti < db.tables@.len(),
            cfg_rows(*db) == db.tables@[ti as int].1.rows@,
            n == db.tables@[ti as int].1.rows@.len(),
            j <= n,
            forall|m: int|
                0 <= m < j ==> #[trigger] db.tables@[ti as int].1.rows@[m].fields@.len() == 1,
        decreases n - j,
    {
        if db.tables[ti].1.rows[j].fields.len() != 1 {
            return Err(StoreError::QueryFailure);
        }
        j += 1;
    }
    let ghost orig_tables = db.tables@;
    let ghost orig_rows = cfg_rows(*db);
    proof {
        assert(rows_unary(orig_rows));
    }
    let defaults = default_obj();
    let ghost dview = defaults@;
    let mut pair = db.tables.remove(ti);
    merge_defaults(&mut pair.1.rows, defaults);
    let snap_opt = from_obj(&pair.1.rows);
    db.tables.insert(ti, pair);
    proof {
        assert(db.tables@ =~= orig_tables.update(ti as int, db.tables@[ti as int]));
        crate::kv::lemma_kidx(orig_tables, "config"@);
        crate::db::lemma_tables_replace(orig_tables, db.tables@, ti as int);
        assert(merge_rel(orig_rows, dview, cfg_rows(*db)));
    }
    match snap_opt {
        Some(s) => {
            cache.snapshot = s;
            Ok(())
        },
        None => Err(StoreError::SerializationFailure),
    }
}

/// How `write` updates the configuration rows: each accepted (known-name)
/// pair is persisted under its name; every other row is untouched, and a
/// pair with an unknown name changes nothing.
pub open spec fn write_rows_rel(
    pairs: Seq<(String, JsonValue)>,
    old_rows: Seq<Row>,
    new_rows: Seq<Row>,
) -> bool {
    &&& forall|k: Seq<char>| #![trigger kget(pairs, k)]
        match kget(pairs, k) {
            Some(p) => if is_known_key(k) {
                cfg_value(new_rows, k) == Some(p.1)
            } else {
                kget(new_rows, k) == kget(old_rows, k)
            },
            None => kget(new_rows, k) == kget(old_rows, k),
        }
    &&& forall|k: Seq<char>| #![all_triggers]
        khas(new_rows, k) <==> khas(old_rows, k) || (khas(pairs, k) && is_known_key(k))
}

/// Accept the known-name pairs of `settings`, silently dropping unknown
/// names; persist each accepted pair and publish the updated snapshot in
/// one step afterwards. With nothing accepted this returns successfully
/// without touching the store or the snapshot.
pub fn write(
    db: &mut Database,
    cache: &mut ConfigCache,
    settings: Vec<(String, JsonValue)>,
) -> (r: Result<(), StoreError>)
    requires
        db_wf(*old(db)),
        cfg_wf(*old(db)),
        rows_unary(cfg_rows(*old(db))),
        kwf(settings@),
    ensures
        db_wf(*final(db)),
        cfg_wf(*final(db)),
        rows_unary(cfg_rows(*final(db))),
        final(db).meta == old(db).meta,
        forall|n: Seq<char>|
            n != "config"@ ==> kget(final(db).tables@, n) == kget(old(db).tables@, n),
        (forall|i: int|
            0 <= i < settings@.len() ==> !is_known_key(#[trigger] settings@[i].key_view()))
            ==> r is Ok,
        match r {
            Ok(()) => {
                &&& write_rows_rel(settings@, cfg_rows(*old(db)), cfg_rows(*final(db)))
                &&& ((forall|i: int|
                    0 <= i < settings@.len() ==> !is_known_key(
                        #[trigger] settings@[i].key_view(),
                    )) ==> final(db).tables@ == old(db).tables@ && final(cache).snapshot == old(
                    cache,
                ).snapshot)
                &&& ((exists|i: int|
                    0 <= i < settings@.len() && is_known_key(#[trigger] settings@[i].key_view()))
                    ==> settings_repr(cfg_rows(*final(db)), final(cache).snapshot))
            },
            Err(e) => {
                &&& final(cache).snapshot == old(cache).snapshot
                &&& (e == StoreError::QueryFailure || e == StoreError::SerializationFailure)
                &&& (e == StoreError::QueryFailure ==> !khas(old(db).tables@, "config"@)
                    && final(db).tables@ == old(db).tables@)
                &&& (e == StoreError::SerializationFailure ==> write_rows_rel(
                    settings@,
                    cfg_rows(*old(db)),
                    cfg_rows(*final(db)),
                ) && !settings_shape_ok(cfg_rows(*final(db))))
            },
        },
{
    let ghost s0 = settings@;
    let ghost orig_tables = db.tables@;
    let ghost orig_rows = cfg_rows(*db);
    let mut pending = settings;
    let ghost mut si: int = 0;
    let mut accepted_any: bool = false;
    while pending.len() > 0
        invariant
            db_wf(*db),
            cfg_wf(*db),
            rows_unary(cfg_rows(*db)),
            kwf(s0),
            0 <= si <= s0.len(),
            pending@ == s0.skip(si),
            s0 == settings@,
            db.meta == old(db).meta,
            forall|n: Seq<char>|
                n != "config"@ ==> kget(db.tables@, n) == kget(orig_tables, n),
            orig_tables == old(db).tables@,
            orig_rows == cfg_rows(*old(db)),
            accepted_any <==> exists|ii: int|
                0 <= ii < si && is_known_key(#[trigger] s0[ii].key_view()),
            !accepted_any ==> db.tables@ == orig_tables,
            accepted_any ==> khas(db.tables@, "config"@),
            forall|k: Seq<char>| #![trigger kget(s0.take(si), k)]
                match kget(s0.take(si), k) {
                    Some(p) => if is_known_key(k) {
                        cfg_value(cfg_rows(*db), k) == Some(p.1)
                    } else {
                        kget(cfg_rows(*db), k) == kget(orig_rows, k)
                    },
                    None => kget(cfg_rows(*db), k) == kget(orig_rows, k),
                },
            forall|k: Seq<char>| #![all_triggers]
                khas(cfg_rows(*db), k) <==> khas(orig_rows, k) || (khas(s0.take(si), k)
                    && is_known_key(k)),
        decreases pending@.len(),
    {
        let p = pending.remove(0);
        proof {
            assert(s0.skip(si)[0] == s0[si]);
            assert(p == s0[si]);
            assert(pending@ =~= s0.skip(si + 1));
            crate::kv::lemma_kidx(s0.take(si), p.0@);
            assert(!khas(s0.take(si), p.0@)) by {
                if kidx(s0.take(si), p.0@) >= 0 {
                    let m = kidx(s0.take(si), p.0@);
                    assert(s0.take(si)[m] == s0[m]);
                }
            }
        }
        let ghost pk = p.0@;
        let ghost rows_prev = cfg_rows(*db);
        let known = is_known_key_exec(p.0.as_str());
        if known {
            match insert(db, p.0, p.1) {
                Ok(()) => {
                    accepted_any = true;
                },
                Err(e) => {
                    proof {
                        assert(!accepted_any);
                        assert(db.tables@ == orig_tables);
                        assert(is_known_key(s0[si].key_view()));
                    }
                    return Err(e);
                },
            }
        }
        proof {
            assert(s0.take(si + 1) =~= s0.take(si).push(s0[si]));
            assert forall|k: Seq<char>| true implies #[trigger] kget(s0.take(si + 1), k) == (
            if k == pk {
                Some(s0[si])
            } else {
                kget(s0.take(si), k)
            }) by {
                crate::kv::lemma_kidx_push(s0.take(si), s0[si], k);
                crate::kv::lemma_kidx(s0.take(si), k);
                if k != pk && kidx(s0.take(si), k) >= 0 {
                    assert(s0.take(si + 1)[kidx(s0.take(si), k)] == s0.take(si)[kidx(
                        s0.take(si),
                        k,
                    )]);
                }
                if k == pk {
                    assert(s0.take(si + 1)[s0.take(si).len() as int] == s0[si]);
                }
            }
            assert forall|k: Seq<char>| true implies (#[trigger] khas(cfg_rows(*db), k) <==> khas(
                orig_rows,
                k,
            ) || (khas(s0.take(si + 1), k) && is_known_key(k))) by {
                if k == pk {
                    if known {
                        assert(khas(cfg_rows(*db), k));
                        assert(khas(s0.take(si + 1), k));
                    } else {
                        assert(cfg_rows(*db) == rows_prev);
                        assert(kget(s0.take(si + 1), k) == Some(s0[si]));
                    }
                } else {
                    assert(kget(s0.take(si + 1), k) == kget(s0.take(si), k));
                    if known {
                        assert(khas(cfg_rows(*db), k) <==> khas(rows_prev, k));
                    } else {
                        assert(cfg_rows(*db) == rows_prev);
                    }
                }
            }
            assert forall|k: Seq<char>| #![trigger kget(s0.take(si + 1), k)] true implies (match kget(
                s0.take(si + 1),
                k,
            ) {
                Some(p2) => if is_known_key(k) {
                    cfg_value(cfg_rows(*db), k) == Some(p2.1)
                } else {
                    kget(cfg_rows(*db), k) == kget(orig_rows, k)
                },
                None => kget(cfg_rows(*db), k) == kget(orig_rows, k),
            }) by {
                if k == pk {
                    if !is_known_key(k) {
                        assert(cfg_rows(*db) == rows_prev);
                    }
                } else {
                    if known {
                        assert(kget(cfg_rows(*db), k) == kget(rows_prev, k));
                    } else {
                        assert(cfg_rows(*db) == rows_prev);
                    }
                }
            }
            si = si + 1;
        }
    }
    proof {
        assert(s0.take(si) =~= s0);
    }
    if !accepted_any {
        return Ok(());
    }
    let ti = match kfind(&db.tables, "config") {
        Some(i) => i,
        None => {
            proof {
                crate::kv::lemma_kidx(db.tables@, "config"@);
                assert(false) by {
                    let wi = choose|ii: int|
                        0 <= ii < s0.len() && is_known_key(#[trigger] s0[ii].key_view());
                    assert(khas(s0, s0[wi].key_view())) by {
                        crate::kv::lemma_kidx(s0, s0[wi].key_view());
                    }
                    assert(khas(cfg_rows(*db), s0[wi].key_view()));
                }
            }
            return Err(StoreError::QueryFailure);
        },
    };
    proof {
        crate::kv::lemma_kidx(db.tables@, "config"@);
        assert(cfg_rows(*db) == db.tables@[ti as int].1.rows@);
    }
    let snap_opt = from_obj(&db.tables[ti].1.rows);
    match snap_opt {
        Some(s) => {
            cache.snapshot = s;
            Ok(())
        },
        None => Err(StoreError::SerializationFailure),
    }
}

/// Whether the value stored under `k` is an object holding nested key `sk`.
pub open spec fn rows_nested_has(o: Seq<Row>, k: Seq<char>, sk: Seq<char>) -> bool {
    match cfg_value(o, k) {
        Some(JsonValue::Obj(e)) => khas(e@, sk),
        _ => false,
    }
}

/// After the defaults are merged in, the stored fields are a superset of
/// the compiled defaults at the top level and one nested level, and every
/// user-supplied value that was present before the merge is preserved
/// unchanged: a non-object field keeps its value, and an object field keeps
/// every nested key it had while gaining the default's missing nested keys.
pub proof fn lemma_load_defaults(old_rows: Seq<Row>, d: Seq<Row>, new_rows: Seq<Row>)
    requires
        is_default_obj(d),
        merge_rel(old_rows, d, new_rows),
    ensures
        forall|k: Seq<char>| is_known_key(k) ==> #[trigger] khas(new_rows, k),
        forall|k: Seq<char>| #[trigger] khas(old_rows, k) ==> khas(new_rows, k),
        forall|k: Seq<char>| #![all_triggers]
            khas(old_rows, k) ==> match (cfg_value(old_rows, k), cfg_value(new_rows, k)) {
                (Some(ov), Some(nv)) => {
                    &&& (!(ov is Obj) ==> nv == ov)
                    &&& (match (ov, nv) {
                        (JsonValue::Obj(osub), JsonValue::Obj(nsub)) => forall|sk: Seq<char>|
                            #[trigger] khas(osub@, sk) ==> obj_get(nsub@, sk) == obj_get(
                                osub@,
                                sk,
                            ) && khas(nsub@, sk),
                        _ => true,
                    })
                },
                _ => false,
            },
        forall|k: Seq<char>, sk: Seq<char>| #![trigger rows_nested_has(d, k, sk)]
            khas(old_rows, k) && (match cfg_value(old_rows, k) {
                Some(JsonValue::Obj(_)) => true,
                _ => false,
            }) && rows_nested_has(d, k, sk) ==> rows_nested_has(new_rows, k, sk),
{
    assert forall|k: Seq<char>| is_known_key(k) implies #[trigger] khas(new_rows, k) by {
        assert(khas(d, k));
    }
    assert forall|k: Seq<char>| #![all_triggers]
        khas(old_rows, k) implies match (cfg_value(old_rows, k), cfg_value(new_rows, k)) {
        (Some(ov), Some(nv)) => {
            &&& (!(ov is Obj) ==> nv == ov)
            &&& (match (ov, nv) {
                (JsonValue::Obj(osub), JsonValue::Obj(nsub)) => forall|sk: Seq<char>|
                    #[trigger] khas(osub@, sk) ==> obj_get(nsub@, sk) == obj_get(osub@, sk)
                        && khas(nsub@, sk),
                _ => true,
            })
        },
        _ => false,
    } by {
        assert(match (cfg_value(old_rows, k), cfg_value(new_rows, k)) {
            (Some(ovv), Some(nvv)) => merged_field(ovv, cfg_value(d, k), nvv),
            _ => false,
        });
    }
    assert forall|k: Seq<char>, sk: Seq<char>| #![trigger rows_nested_has(d, k, sk)]
        khas(old_rows, k) && (match cfg_value(old_rows, k) {
            Some(JsonValue::Obj(_)) => true,
            _ => false,
        }) && rows_nested_has(d, k, sk) implies rows_nested_has(new_rows, k, sk) by {
        assert(match (cfg_value(old_rows, k), cfg_value(new_rows, k)) {
            (Some(ovv), Some(nvv)) => merged_field(ovv, cfg_value(d, k), nvv),
            _ => false,
        });
    }
}

} // verus!
