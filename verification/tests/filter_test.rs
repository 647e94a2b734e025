use serde_json::{Number, Value};
use wait_for_lsp::config::Config;
use wait_for_lsp::filter::{filter_message, new_version_map, VersionMap};
use wait_for_lsp::json::{JsonNumber, JsonValue};

fn from_serde(v: &Value) -> JsonValue {
    match v {
        Value::Null => JsonValue::Null,
        Value::Bool(b) => JsonValue::Bool(*b),
        Value::Number(n) => JsonValue::Number(if let Some(u) = n.as_u64() {
            JsonNumber::PosInt(u)
        } else if let Some(i) = n.as_i64() {
            JsonNumber::NegInt(i)
        } else {
            JsonNumber::Float(n.to_string())
        }),
        Value::String(s) => JsonValue::String(s.clone()),
        Value::Array(a) => JsonValue::Array(a.iter().map(from_serde).collect()),
        Value::Object(m) => {
            JsonValue::Object(m.iter().map(|(k, v)| (k.clone(), from_serde(v))).collect())
        }
    }
}

fn to_serde(v: &JsonValue) -> Value {
    match v {
        JsonValue::Null => Value::Null,
        JsonValue::Bool(b) => Value::Bool(*b),
        JsonValue::Number(JsonNumber::PosInt(u)) => Value::Number(Number::from(*u)),
        JsonValue::Number(JsonNumber::NegInt(i)) => Value::Number(Number::from(*i)),
        JsonValue::Number(JsonNumber::Float(t)) => Value::Number(t.parse().unwrap()),
        JsonValue::String(s) => Value::String(s.clone()),
        JsonValue::Array(a) => Value::Array(a.iter().map(to_serde).collect()),
        JsonValue::Object(es) => {
            let mut m = serde_json::Map::new();
            for (k, v) in es {
                m.insert(k.clone(), to_serde(v));
            }
            Value::Object(m)
        }
    }
}

fn json(text: &str) -> Value {
    serde_json::from_str(text).unwrap()
}

fn make_msg(method: Option<&str>, diagnostics: Option<Vec<Value>>) -> Value {
    let mut msg = json(r#"{"jsonrpc": "2.0"}"#);
    if let Some(m) = method {
        msg["method"] = Value::String(m.to_string());
        msg["params"] = json("{}");
        if let Some(diags) = diagnostics {
            msg["params"]["diagnostics"] = Value::Array(diags);
        }
    } else {
        msg["id"] = json("1");
        msg["result"] = Value::Null;
    }
    msg
}

fn diag(severity: u64) -> Value {
    let mut d = json(
        r#"{"range": {"start": {"line": 0, "character": 0}, "end": {"line": 0, "character": 1}}, "message": "test"}"#,
    );
    d["severity"] = Value::Number(Number::from(severity));
    d
}

fn cfg(drop: bool, min_sev: u8) -> Config {
    Config {
        drop_diagnostics: drop,
        min_severity: min_sev,
        stale_filter_enabled: false,
        log_enabled: false,
    }
}

fn run(msg: &Value, config: &Config, versions: &VersionMap) -> Option<Value> {
    filter_message(&from_serde(msg), config, versions).map(|v| to_serde(&v))
}

// --- DROP_DIAGNOSTICS = true ---

#[test]
fn test_drop_diags_true_drops_publish_diagnostics() {
    let msg = make_msg(Some("textDocument/publishDiagnostics"), Some(vec![]));
    let result = run(&msg, &cfg(true, 1), &new_version_map());
    assert!(result.is_none());
}

#[test]
fn test_drop_diags_true_passes_non_diag() {
    let msg = make_msg(None, None);
    let result = run(&msg, &cfg(true, 1), &new_version_map());
    assert!(result.is_some());
}

#[test]
fn test_drop_diags_true_passes_other_notification() {
    let msg = make_msg(Some("window/showMessage"), None);
    let result = run(&msg, &cfg(true, 1), &new_version_map());
    assert!(result.is_some());
}

#[test]
fn test_drop_diags_true_passes_request() {
    let msg = make_msg(Some("workspace/diagnostic/refresh"), None);
    let result = run(&msg, &cfg(true, 1), &new_version_map());
    assert!(result.is_some());
}

// --- DROP_DIAGNOSTICS = false, severity filtering ---

#[test]
fn test_severity_filter_keeps_at_threshold() {
    let diags = vec![diag(1), diag(2), diag(3), diag(4)];
    let msg = make_msg(Some("textDocument/publishDiagnostics"), Some(diags));
    let result = run(&msg, &cfg(false, 2), &new_version_map()).unwrap();
    let kept = result["params"]["diagnostics"].as_array().unwrap();
    assert_eq!(kept.len(), 2);
    assert_eq!(kept[0]["severity"], 1);
    assert_eq!(kept[1]["severity"], 2);
}

#[test]
fn test_severity_filter_keeps_all_at_four() {
    let diags = vec![diag(1), diag(4)];
    let msg = make_msg(Some("textDocument/publishDiagnostics"), Some(diags));
    let result = run(&msg, &cfg(false, 4), &new_version_map()).unwrap();
    let kept = result["params"]["diagnostics"].as_array().unwrap();
    assert_eq!(kept.len(), 2);
}

#[test]
fn test_severity_filter_keeps_only_sev_one() {
    let diags = vec![diag(1), diag(2), diag(3), diag(4)];
    let msg = make_msg(Some("textDocument/publishDiagnostics"), Some(diags));
    let result = run(&msg, &cfg(false, 1), &new_version_map()).unwrap();
    let kept = result["params"]["diagnostics"].as_array().unwrap();
    assert_eq!(kept.len(), 1);
    assert_eq!(kept[0]["severity"], 1);
}

#[test]
fn test_no_severity_field_treated_as_one() {
    let mut d = diag(3);
    d.as_object_mut().unwrap().remove("severity");
    let msg = make_msg(Some("textDocument/publishDiagnostics"), Some(vec![d]));
    let result = run(&msg, &cfg(false, 1), &new_version_map()).unwrap();
    let kept = result["params"]["diagnostics"].as_array().unwrap();
    assert_eq!(kept.len(), 1, "missing severity defaults to 1, should be kept");
}

#[test]
fn test_empty_diagnostics_passes_through() {
    let msg = make_msg(Some("textDocument/publishDiagnostics"), Some(vec![]));
    let result = run(&msg, &cfg(false, 1), &new_version_map()).unwrap();
    let diags = result["params"]["diagnostics"].as_array().unwrap();
    assert!(diags.is_empty());
}

#[test]
fn test_non_diag_passes_unchanged() {
    let msg = make_msg(Some("window/showMessage"), None);
    let result = run(&msg, &cfg(false, 1), &new_version_map());
    assert_eq!(result.unwrap(), msg);
}

// --- Version-based stale filtering ---

fn cfg_stale(min_sev: u8) -> Config {
    Config {
        drop_diagnostics: false,
        min_severity: min_sev,
        stale_filter_enabled: true,
        log_enabled: false,
    }
}

fn make_diag_msg(uri: &str, version: i64, diagnostics: Vec<Value>) -> Value {
    let mut msg = json(r#"{"jsonrpc": "2.0", "method": "textDocument/publishDiagnostics", "params": {}}"#);
    msg["params"]["uri"] = Value::String(uri.to_string());
    msg["params"]["version"] = Value::Number(Number::from(version));
    msg["params"]["diagnostics"] = Value::Array(diagnostics);
    msg
}

fn with_version(uri: &str, version: i64) -> VersionMap {
    let mut vm = new_version_map();
    vm.insert(uri.to_string(), version);
    vm
}

#[test]
fn test_stale_diagnostic_dropped_when_older() {
    let msg = make_diag_msg("file:///test.rs", 1, vec![diag(1)]);
    let result = run(&msg, &cfg_stale(4), &with_version("file:///test.rs", 2));
    assert!(result.is_none());
}

#[test]
fn test_fresh_diagnostic_passes_when_matching() {
    let msg = make_diag_msg("file:///test.rs", 2, vec![diag(1)]);
    let result = run(&msg, &cfg_stale(4), &with_version("file:///test.rs", 2));
    assert!(result.is_some());
}

#[test]
fn test_fresh_diagnostic_passes_when_newer() {
    let msg = make_diag_msg("file:///test.rs", 3, vec![diag(1)]);
    let result = run(&msg, &cfg_stale(4), &with_version("file:///test.rs", 2));
    assert!(result.is_some());
}

#[test]
fn test_stale_filter_no_version_in_message_passes() {
    let msg = make_diag_msg("file:///test.rs", 1, vec![diag(1)]);
    let mut msg = msg;
    msg["params"].as_object_mut().unwrap().remove("version");
    let result = run(&msg, &cfg_stale(4), &with_version("file:///test.rs", 2));
    assert!(result.is_some());
}

#[test]
fn test_stale_filter_no_tracked_version_passes() {
    let msg = make_diag_msg("file:///test.rs", 1, vec![diag(1)]);
    let result = run(&msg, &cfg_stale(4), &new_version_map());
    assert!(result.is_some());
}

#[test]
fn test_stale_filter_disabled_passes_old_diag() {
    let msg = make_diag_msg("file:///test.rs", 1, vec![diag(1)]);
    let config = Config {
        drop_diagnostics: false,
        min_severity: 4,
        stale_filter_enabled: false,
        log_enabled: false,
    };
    let result = run(&msg, &config, &with_version("file:///test.rs", 2));
    assert!(result.is_some());
}

#[test]
fn test_stale_filter_different_file_passes() {
    let msg = make_diag_msg("file:///other.rs", 1, vec![diag(1)]);
    let result = run(&msg, &cfg_stale(4), &with_version("file:///test.rs", 2));
    assert!(result.is_some());
}

#[test]
fn test_stale_filter_severity_also_applied() {
    let msg = make_diag_msg("file:///test.rs", 2, vec![diag(1), diag(4)]);
    let result = run(&msg, &cfg_stale(1), &with_version("file:///test.rs", 2));
    let filtered = result.unwrap();
    let kept = filtered["params"]["diagnostics"].as_array().unwrap();
    assert_eq!(kept.len(), 1);
    assert_eq!(kept[0]["severity"], 1);
}

// --- further cases ---

#[test]
fn test_large_severity_compared_whole() {
    // severities above 255 are compared as they are; a negative or fractional severity
    // counts as 1
    let mut neg = diag(1);
    neg["severity"] = json("-3");
    let mut frac = diag(1);
    frac["severity"] = json("2.5");
    let msg = make_msg(
        Some("textDocument/publishDiagnostics"),
        Some(vec![diag(257), diag(256), neg, frac]),
    );
    let result = run(&msg, &cfg(false, 1), &new_version_map()).unwrap();
    let kept = result["params"]["diagnostics"].as_array().unwrap();
    assert_eq!(kept.len(), 2);
    assert_eq!(kept[0]["severity"], json("-3"));
    assert_eq!(kept[1]["severity"], json("2.5"));

    let msg = json(r#"{"method":"textDocument/publishDiagnostics","params":{"diagnostics":[{"severity":256}]}}"#);
    let result = run(&msg, &cfg(false, 4), &new_version_map()).unwrap();
    assert_eq!(
        result,
        json(r#"{"method":"textDocument/publishDiagnostics","params":{"diagnostics":[]}}"#)
    );
}

#[test]
fn test_publish_without_diagnostics_array_unchanged() {
    let mut msg = make_msg(Some("textDocument/publishDiagnostics"), None);
    msg["params"]["diagnostics"] = json(r#""none""#);
    msg["params"]["uri"] = Value::String("file:///a.rs".to_string());
    let result = run(&msg, &cfg(false, 1), &new_version_map()).unwrap();
    assert_eq!(result, msg);
}

#[test]
fn test_other_fields_kept() {
    let msg = make_diag_msg("file:///k.rs", 9, vec![diag(3), diag(1), diag(2)]);
    let result = run(&msg, &cfg_stale(2), &with_version("file:///k.rs", 9)).unwrap();
    assert_eq!(result["params"]["uri"], "file:///k.rs");
    assert_eq!(result["params"]["version"], 9);
    assert_eq!(result["jsonrpc"], "2.0");
    let sev: Vec<Value> = result["params"]["diagnostics"]
        .as_array()
        .unwrap()
        .iter()
        .map(|d| d["severity"].clone())
        .collect();
    assert_eq!(sev, vec![json("1"), json("2")]);
}

#[test]
fn test_version_map_insert_and_get() {
    let mut vm = new_version_map();
    assert_eq!(vm.get("file:///a.rs"), None);
    vm.insert("file:///a.rs".to_string(), 3);
    vm.insert("file:///a.rs".to_string(), 5);
    assert_eq!(vm.get("file:///a.rs"), Some(5));
    assert_eq!(vm.get("file:///b.rs"), None);
}

#[test]
fn test_method_must_be_string() {
    let mut msg = make_msg(Some("textDocument/publishDiagnostics"), Some(vec![]));
    msg["method"] = json("5");
    let result = run(&msg, &cfg(true, 1), &new_version_map());
    assert_eq!(result, Some(msg));
}
