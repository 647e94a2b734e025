use serde_json::{Number, Value};
use wait_for_lsp::config::Config;
use wait_for_lsp::filter::new_version_map;
use wait_for_lsp::json::{JsonNumber, JsonValue};
use wait_for_lsp::proxy::{
    exit_code, queue_key_of, reported_version_of, route_server_messages, track_client_messages,
    ChildOutcome,
};

fn from_serde(v: &Value) -> JsonValue {
    match v {
        Value::Null => JsonValue::Null,
        Value::Bool(b) => JsonValue::Bool(*b),
        Value::Number(n) => JsonValue::Number(if let Some(u) = n.as_u64() {
            JsonNumber::PosInt(u)
        } else if let Some(i) = n.as_i64() {
            JsonNumber::NegInt(i)
        } else {
            JsonNumber::Float(n.to_string())
        }),
        Value::String(s) => JsonValue::String(s.clone()),
        Value::Array(a) => JsonValue::Array(a.iter().map(from_serde).collect()),
        Value::Object(m) => {
            JsonValue::Object(m.iter().map(|(k, v)| (k.clone(), from_serde(v))).collect())
        }
    }
}

fn to_serde(v: &JsonValue) -> Value {
    match v {
        JsonValue::Null => Value::Null,
        JsonValue::Bool(b) => Value::Bool(*b),
        JsonValue::Number(JsonNumber::PosInt(u)) => Value::Number(Number::from(*u)),
        JsonValue::Number(JsonNumber::NegInt(i)) => Value::Number(Number::from(*i)),
        JsonValue::Number(JsonNumber::Float(t)) => Value::Number(t.parse().unwrap()),
        JsonValue::String(s) => Value::String(s.clone()),
        JsonValue::Array(a) => Value::Array(a.iter().map(to_serde).collect()),
        JsonValue::Object(es) => {
            let mut m = serde_json::Map::new();
            for (k, v) in es {
                m.insert(k.clone(), to_serde(v));
            }
            Value::Object(m)
        }
    }
}

fn json(text: &str) -> Value {
    serde_json::from_str(text).unwrap()
}

fn publish(uri: &str, version: i64, n: usize) -> Value {
    let diags: Vec<String> = (0..n).map(|_| r#"{"severity":1,"message":"m"}"#.to_string()).collect();
    json(&format!(
        r#"{{"jsonrpc":"2.0","method":"textDocument/publishDiagnostics","params":{{"uri":"{}","version":{},"diagnostics":[{}]}}}}"#,
        uri,
        version,
        diags.join(",")
    ))
}

fn keep_all() -> Config {
    Config {
        drop_diagnostics: false,
        min_severity: 4,
        stale_filter_enabled: true,
        log_enabled: false,
    }
}

fn route(msgs: &[Value], config: &Config) -> Vec<Value> {
    let js: Vec<JsonValue> = msgs.iter().map(from_serde).collect();
    route_server_messages(&js, config, &new_version_map())
        .iter()
        .map(to_serde)
        .collect()
}

#[test]
fn test_latest_diagnostics_per_uri_only() {
    let a1 = publish("file:///a.rs", 1, 3);
    let b1 = publish("file:///b.rs", 1, 1);
    let a2 = publish("file:///a.rs", 1, 2);
    let a3 = publish("file:///a.rs", 1, 1);
    let hover = json(r#"{"jsonrpc":"2.0","id":4,"result":null}"#);
    let out = route(&[a1, b1.clone(), a2, hover.clone(), a3.clone()], &keep_all());
    // non-diagnostic messages first, then the latest per URI, in first-arrival order
    assert_eq!(out, vec![hover, a3, b1]);
}

#[test]
fn test_dropped_diagnostics_not_queued() {
    let mut config = keep_all();
    config.drop_diagnostics = true;
    let out = route(
        &[
            publish("file:///a.rs", 1, 1),
            json(r#"{"jsonrpc":"2.0","method":"window/logMessage","params":{"message":"x"}}"#),
        ],
        &config,
    );
    assert_eq!(out.len(), 1);
    assert_eq!(out[0]["method"], "window/logMessage");
}

#[test]
fn test_publish_without_uri_goes_out_at_once() {
    let no_uri = json(r#"{"method":"textDocument/publishDiagnostics","params":{"diagnostics":[]}}"#);
    let a = publish("file:///a.rs", 1, 1);
    let out = route(&[a.clone(), no_uri.clone()], &keep_all());
    assert_eq!(out, vec![no_uri, a]);
}

#[test]
fn test_tracking_then_stale_drop() {
    let mut versions = new_version_map();
    let open = json(
        r#"{"jsonrpc":"2.0","method":"textDocument/didOpen","params":{"textDocument":{"uri":"file:///a.rs","version":1,"text":""}}}"#,
    );
    let change = json(
        r#"{"jsonrpc":"2.0","method":"textDocument/didChange","params":{"textDocument":{"uri":"file:///a.rs","version":2},"contentChanges":[]}}"#,
    );
    let other = json(
        r#"{"jsonrpc":"2.0","method":"textDocument/didSave","params":{"textDocument":{"uri":"file:///a.rs","version":9}}}"#,
    );
    let client: Vec<JsonValue> = [open, change, other].iter().map(from_serde).collect();
    track_client_messages(&mut versions, &client);
    assert_eq!(versions.get("file:///a.rs"), Some(2));

    let old = from_serde(&publish("file:///a.rs", 1, 1));
    let cur = from_serde(&publish("file:///a.rs", 2, 1));
    let out = route_server_messages(&vec![old, cur], &keep_all(), &versions);
    assert_eq!(out.len(), 1);
    assert_eq!(to_serde(&out[0])["params"]["version"], 2);
}

#[test]
fn test_tracking_ignores_reports_without_version() {
    let mut versions = new_version_map();
    let change = json(
        r#"{"method":"textDocument/didChange","params":{"textDocument":{"uri":"file:///a.rs"}}}"#,
    );
    track_client_messages(&mut versions, &vec![from_serde(&change)]);
    assert_eq!(versions.get("file:///a.rs"), None);
}

#[test]
fn test_exit_codes() {
    assert_eq!(exit_code(ChildOutcome::Exited(Some(42))), 42);
    assert_eq!(exit_code(ChildOutcome::Exited(Some(0))), 0);
    assert_eq!(exit_code(ChildOutcome::Exited(None)), 1);
    assert_eq!(exit_code(ChildOutcome::SpawnFailed), 1);
    assert_eq!(exit_code(ChildOutcome::WaitFailed), 1);
}

#[test]
fn test_plain_chunk_written_unchanged() {
    let msgs = vec![
        json(r#"{"jsonrpc":"2.0","id":1,"result":{"capabilities":{}}}"#),
        json(r#"{"jsonrpc":"2.0","method":"window/showMessage","params":{"type":3,"message":"hi"}}"#),
        json(r#"{"jsonrpc":"2.0","method":"workspace/diagnostic/refresh","id":7}"#),
    ];
    let mut config = keep_all();
    config.drop_diagnostics = true;
    assert_eq!(route(&msgs, &config), msgs);
    assert_eq!(route(&msgs, &keep_all()), msgs);
}

#[test]
fn test_queue_key_and_reported_version() {
    let p = from_serde(&publish("file:///a.rs", 3, 0));
    assert_eq!(queue_key_of(&p), Some("file:///a.rs".to_string()));
    assert_eq!(reported_version_of(&p), None);
    let open = from_serde(&json(
        r#"{"method":"textDocument/didOpen","params":{"textDocument":{"uri":"file:///b.rs","version":-2}}}"#,
    ));
    assert_eq!(reported_version_of(&open), Some(("file:///b.rs".to_string(), -2)));
    assert_eq!(queue_key_of(&open), None);
}
