//! Which `textDocument/publishDiagnostics` notifications reach the client, and how much of them.
use vstd::prelude::*;
use crate::text::str_eq;
use vstd::hash_map::StringHashMap;
use crate::config::Config;
use crate::json::{
    entries_view, find_key, items_view, key_index, lemma_key_index_bounds, lemma_key_index_update,
    lemma_view_unfold,
    opt_as_i64, opt_as_str, opt_as_u64, opt_get, Json, JsonValue,
};

verus! {

/// Map from document URI to the latest version that the client reported.
pub struct VersionMap {
    map: StringHashMap<i64>,
}

impl View for VersionMap {
    type V = Map<Seq<char>, i64>;

    closed spec fn view(&self) -> Map<Seq<char>, i64> {
        self.map@
    }
}

/// Create an empty version map for use with [`filter_message`].
pub fn new_version_map() -> (r: VersionMap)
    ensures
        r@ == Map::<Seq<char>, i64>::empty(),
{
    VersionMap { map: StringHashMap::new() }
}

impl VersionMap {
    /// The tracked version of `uri`.
    pub fn get(&self, uri: &str) -> (r: Option<i64>)
        ensures
            match r {
                Some(v) => self@.contains_key(uri@) && self@[uri@] == v,
                None => !self@.contains_key(uri@),
            },
    {
        match self.map.get(uri) {
            Some(v) => Some(*v),
            None => None,
        }
    }

    /// Records `version` as the latest version of `uri`.
    pub fn insert(&mut self, uri: String, version: i64)
        ensures
            final(self)@ == old(self)@.insert(uri@, version),
    {
        self.map.insert(uri, version);
    }
}

pub open spec fn publish_method() -> Seq<char> {
    "textDocument/publishDiagnostics"@
}

/// The method of a notification or request, if it names one.
pub open spec fn method_of(msg: Json) -> Option<Seq<char>> {
    opt_as_str(msg.get("method"@))
}

/// Whether `msg` is a `textDocument/publishDiagnostics` notification.
pub open spec fn is_publish(msg: Json) -> bool {
    method_of(msg) == Some(publish_method())
}

/// `params.uri` of a message, when it is a string.
pub open spec fn params_uri(msg: Json) -> Option<Seq<char>> {
    opt_as_str(opt_get(msg.get("params"@), "uri"@))
}

/// `params.version` of a message, when it is an integer that fits in `i64`.
pub open spec fn params_version(msg: Json) -> Option<i64> {
    opt_as_i64(opt_get(msg.get("params"@), "version"@))
}

/// A message is stale when it names a URI and a version, and the client has already
/// reported a newer version of that URI.
pub open spec fn is_stale(msg: Json, versions: Map<Seq<char>, i64>) -> bool {
    match (params_uri(msg), params_version(msg)) {
        (Some(uri), Some(v)) => versions.contains_key(uri) && v < versions[uri],
        _ => false,
    }
}

/// The severity of a diagnostic: its `severity` field, 1 when absent or not a non-negative
/// integer.
pub open spec fn severity_of(d: Json) -> u64 {
    match opt_as_u64(d.get("severity"@)) {
        Some(u) => u,
        None => 1,
    }
}

pub open spec fn keep_diagnostic(d: Json, max_severity: u8) -> bool {
    severity_of(d) <= max_severity
}

/// `msg` with `params.diagnostics`, when it is an array, cut down to the diagnostics whose
/// severity is at most `max_severity`, in their order; `msg` itself otherwise.
pub open spec fn retain_by_severity(msg: Json, max_severity: u8) -> Json {
    match msg {
        Json::Object(es) => match key_index(es, "params"@) {
            Some(pi) => match es[pi].1 {
                Json::Object(pes) => match key_index(pes, "diagnostics"@) {
                    Some(di) => match pes[di].1 {
                        Json::Array(ds) => Json::Object(
                            es.update(
                                pi,
                                (
                                    es[pi].0,
                                    Json::Object(
                                        pes.update(
                                            di,
                                            (
                                                pes[di].0,
                                                Json::Array(
                                                    ds.filter(
                                                        |d: Json| keep_diagnostic(d, max_severity),
                                                    ),
                                                ),
                                            ),
                                        ),
                                    ),
                                ),
                            ),
                        ),
                        _ => msg,
                    },
                    None => msg,
                },
                _ => msg,
            },
            None => msg,
        },
        _ => msg,
    }
}

/// What the filter does with `msg`: `None` drops it, `Some(m)` forwards `m`.
pub open spec fn filter_spec(msg: Json, config: Config, versions: Map<Seq<char>, i64>) -> Option<
    Json,
> {
    if !is_publish(msg) {
        Some(msg)
    } else if config.drop_diagnostics {
        None
    } else if config.stale_filter_enabled && is_stale(msg, versions) {
        None
    } else {
        Some(retain_by_severity(msg, config.min_severity))
    }
}

pub open spec fn opt_view(o: Option<JsonValue>) -> Option<Json> {
    match o {
        Some(v) => Some(v.view()),
        None => None,
    }
}

fn severity_of_value(d: &JsonValue) -> (r: u64)
    ensures
        r == severity_of(d.view()),
{
    match d.get("severity") {
        Some(s) => match s.as_u64() {
            Some(u) => u,
            None => 1,
        },
        None => 1,
    }
}

/// The diagnostics of `items` whose severity is at most `max_severity`, in order.
fn keep_by_severity(items: &Vec<JsonValue>, max_severity: u8) -> (r: Vec<JsonValue>)
    ensures
        items_view(r@) == items_view(items@).filter(|d: Json| keep_diagnostic(d, max_severity)),
{
    let ghost pred = |d: Json| keep_diagnostic(d, max_severity);
    let mut out: Vec<JsonValue> = Vec::new();
    let mut i: usize = 0;
    while i < items.len()
        invariant
            i <= items.len(),
            pred == (|d: Json| keep_diagnostic(d, max_severity)),
            items_view(out@) == items_view(items@).take(i as int).filter(pred),
        decreases items.len() - i,
    {
        let ghost prefix = items_view(items@).take(i as int);
        let ghost next = items_view(items@).take(i + 1);
        assert(next.drop_last() =~= prefix);
        assert(next.last() == items[i as int].view());
        proof {
            reveal_with_fuel(Seq::<_>::filter, 1);
            assert(next.filter(pred) == (if pred(next.last()) {
                prefix.filter(pred).push(next.last())
            } else {
                prefix.filter(pred)
            }));
        }
        let sev = severity_of_value(&items[i]);
        assert(pred(next.last()) == (sev <= max_severity as u64));
        if sev <= max_severity as u64 {
            let c = items[i].copy();
            let ghost before = out@;
            out.push(c);
            assert(items_view(out@) =~= items_view(before).push(c.view()));
            assert(items_view(out@) == next.filter(pred));
        } else {
            assert(items_view(out@) == next.filter(pred));
        }
        i = i + 1;
    }
    assert(items_view(items@).take(items.len() as int) =~= items_view(items@));
    out
}

/// Deep copies of `entries[from..to]`, appended to `out`.
fn copy_entries(entries: &Vec<(String, JsonValue)>, from: usize, to: usize, out: &mut Vec<(String, JsonValue)>)
    requires
        from <= to <= entries.len(),
    ensures
        entries_view(final(out)@) == entries_view(old(out)@) + entries_view(entries@).subrange(
            from as int,
            to as int,
        ),
{
    let mut i: usize = from;
    while i < to
        invariant
            from <= i <= to <= entries.len(),
            entries_view(out@) == entries_view(old(out)@) + entries_view(entries@).subrange(
                from as int,
                i as int,
            ),
        decreases to - i,
    {
        let k = entries[i].0.clone();
        let v = entries[i].1.copy();
        let ghost before = out@;
        out.push((k, v));
        assert(entries_view(out@) =~= entries_view(before).push((k@, v.view())));
        assert(entries_view(old(out)@) + entries_view(entries@).subrange(from as int, i + 1)
            =~= entries_view(old(out)@) + entries_view(entries@).subrange(from as int, i as int)
            + seq![(entries[i as int].0@, entries[i as int].1.view())]);
        i = i + 1;
    }
}

/// The object `entries` with the value of entry `idx` replaced by `val`.
fn object_replacing(entries: &Vec<(String, JsonValue)>, idx: usize, val: JsonValue) -> (r: JsonValue)
    requires
        idx < entries.len(),
    ensures
        r.view() == Json::Object(
            entries_view(entries@).update(idx as int, (entries[idx as int].0@, val.view())),
        ),
{
    let mut out: Vec<(String, JsonValue)> = Vec::new();
    copy_entries(entries, 0, idx, &mut out);
    let k = entries[idx].0.clone();
    let ghost before = out@;
    out.push((k, val));
    assert(entries_view(out@) =~= entries_view(before).push((k@, val.view())));
    copy_entries(entries, idx + 1, entries.len(), &mut out);
    assert(entries_view(out@) =~= entries_view(entries@).update(
        idx as int,
        (entries[idx as int].0@, val.view()),
    ));
    let r = JsonValue::Object(out);
    proof {
        lemma_view_unfold(&r);
    }
    r
}

/// `msg` with the diagnostics of `params.diagnostics` above `max_severity` removed.
fn retain_diagnostics(msg: &JsonValue, max_severity: u8) -> (r: JsonValue)
    ensures
        r.view() == retain_by_severity(msg.view(), max_severity),
{
    proof {
        lemma_view_unfold(msg);
    }
    if let JsonValue::Object(es) = msg {
        if let Some(pi) = find_key(es, "params") {
            let p = &es[pi].1;
            proof {
                lemma_view_unfold(p);
            }
            if let JsonValue::Object(pes) = p {
                if let Some(di) = find_key(pes, "diagnostics") {
                    let d = &pes[di].1;
                    proof {
                        lemma_view_unfold(d);
                    }
                    if let JsonValue::Array(ds) = d {
                        let kept = keep_by_severity(ds, max_severity);
                        let arr = JsonValue::Array(kept);
                        proof {
                            lemma_view_unfold(&arr);
                        }
                        let new_params = object_replacing(pes, di, arr);
                        return object_replacing(es, pi, new_params);
                    }
                }
            }
        }
    }
    msg.copy()
}

/// Apply diagnostic filtering to a parsed LSP message.
///
/// `versions` tracks the latest `didOpen`/`didChange` version per URI.
/// When `config.stale_filter_enabled`, any `publishDiagnostics` whose
/// `params.version` is older than the tracked version is dropped (stale).
///
/// Returns `None` if the message should be dropped entirely.
/// Returns `Some(msg)` (possibly modified) if it should be forwarded.
pub fn filter_message(msg: &JsonValue, config: &Config, versions: &VersionMap) -> (r: Option<
    JsonValue,
>)
    ensures
        opt_view(r) == filter_spec(msg.view(), *config, versions@),
{
    let publish = match msg.get("method") {
        Some(m) => match m.as_str() {
            Some(s) => str_eq(s, "textDocument/publishDiagnostics"),
            None => false,
        },
        None => false,
    };
    if !publish {
        return Some(msg.copy());
    }
    if config.drop_diagnostics {
        return None;
    }
    if config.stale_filter_enabled {
        let params = msg.get("params");
        let uri = match params {
            Some(p) => match p.get("uri") {
                Some(u) => u.as_str(),
                None => None,
            },
            None => None,
        };
        let version = match params {
            Some(p) => match p.get("version") {
                Some(v) => v.as_i64(),
                None => None,
            },
            None => None,
        };
        if let (Some(uri), Some(v)) = (uri, version) {
            if let Some(latest) = versions.get(uri) {
                if v < latest {
                    return None;
                }
            }
        }
    }
    Some(retain_diagnostics(msg, config.min_severity))
}


/// Messages other than `textDocument/publishDiagnostics` are forwarded unchanged, whatever
/// the configuration and the tracked versions.
pub proof fn lemma_other_messages_pass(msg: Json, config: Config, versions: Map<Seq<char>, i64>)
    requires
        !is_publish(msg),
    ensures
        filter_spec(msg, config, versions) == Some(msg),
{
}

/// With `drop_diagnostics`, every `publishDiagnostics` notification is dropped.
pub proof fn lemma_drop_all(msg: Json, config: Config, versions: Map<Seq<char>, i64>)
    requires
        is_publish(msg),
        config.drop_diagnostics,
    ensures
        filter_spec(msg, config, versions) is None,
{
}

/// With the stale filter on, a `publishDiagnostics` whose version is older than the version
/// the client last reported for its URI is dropped.
pub proof fn lemma_stale_dropped(msg: Json, config: Config, versions: Map<Seq<char>, i64>)
    requires
        is_publish(msg),
        config.stale_filter_enabled,
        params_uri(msg) is Some,
        params_version(msg) is Some,
        versions.contains_key(params_uri(msg)->0),
        params_version(msg)->0 < versions[params_uri(msg)->0],
    ensures
        filter_spec(msg, config, versions) is None,
{
}

/// The diagnostics of a forwarded `publishDiagnostics` are exactly those of the original
/// whose severity is at most `min_severity`: each one kept is at most the threshold, each
/// one at most the threshold is kept, and nothing else of the message changes.
pub proof fn lemma_kept_diagnostics(msg: Json, config: Config, versions: Map<Seq<char>, i64>)
    requires
        is_publish(msg),
        filter_spec(msg, config, versions) is Some,
        opt_get(msg.get("params"@), "diagnostics"@) matches Some(Json::Array(_)),
    ensures
        ({
            let out = filter_spec(msg, config, versions)->0;
            let before = opt_get(msg.get("params"@), "diagnostics"@)->0->Array_0;
            let after = opt_get(out.get("params"@), "diagnostics"@);
            &&& after matches Some(Json::Array(kept))
            &&& forall|i: int|
                0 <= i < kept.len() ==> severity_of(#[trigger] kept[i]) <= config.min_severity
            &&& forall|i: int|
                0 <= i < before.len() && severity_of(before[i]) <= config.min_severity
                    ==> kept.contains(#[trigger] before[i])
            &&& method_of(out) == method_of(msg)
            &&& params_uri(out) == params_uri(msg)
            &&& params_version(out) == params_version(msg)
        }),
{
    let min = config.min_severity;
    let es = msg->Object_0;
    let pi = key_index(es, "params"@)->0;
    lemma_key_index_bounds(es, "params"@);
    let pes = es[pi].1->Object_0;
    let di = key_index(pes, "diagnostics"@)->0;
    lemma_key_index_bounds(pes, "diagnostics"@);
    let ds = pes[di].1->Array_0;
    let pred = |d: Json| keep_diagnostic(d, min);
    let kept = ds.filter(pred);
    let new_pes = pes.update(di, (pes[di].0, Json::Array(kept)));
    let new_es = es.update(pi, (es[pi].0, Json::Object(new_pes)));
    let out = filter_spec(msg, config, versions)->0;
    assert(out == Json::Object(new_es));
    lemma_key_index_update(es, pi, Json::Object(new_pes), "params"@);
    lemma_key_index_update(es, pi, Json::Object(new_pes), "method"@);
    lemma_key_index_update(pes, di, Json::Array(kept), "diagnostics"@);
    lemma_key_index_update(pes, di, Json::Array(kept), "uri"@);
    lemma_key_index_update(pes, di, Json::Array(kept), "version"@);
    lemma_key_index_bounds(es, "method"@);
    lemma_key_index_bounds(pes, "uri"@);
    lemma_key_index_bounds(pes, "version"@);
    reveal_strlit("method");
    reveal_strlit("params");
    reveal_strlit("diagnostics");
    reveal_strlit("uri");
    reveal_strlit("version");
    assert(out.get("params"@) == Some(Json::Object(new_pes)));
    assert(Json::Object(new_pes).get("diagnostics"@) == Some(Json::Array(kept)));
    broadcast use vstd::seq_lib::group_filter_ensures;

    assert forall|i: int| 0 <= i < kept.len() implies severity_of(#[trigger] kept[i]) <= min by {
        assert(pred(kept[i]));
    }
    assert forall|i: int| 0 <= i < ds.len() && severity_of(ds[i]) <= min implies kept.contains(
        #[trigger] ds[i],
    ) by {
        assert(pred(ds[i]));
    }
}


/// A `publishDiagnostics` is forwarded, cut down by severity, whenever it is not dropped for
/// being stale: with the drop switch off, it passes unless the stale filter is on and it
/// names a URI and a version older than the version tracked for that URI. An empty or
/// unchanged diagnostics list is forwarded like any other.
pub proof fn lemma_fresh_forwarded(msg: Json, config: Config, versions: Map<Seq<char>, i64>)
    requires
        is_publish(msg),
        !config.drop_diagnostics,
        !config.stale_filter_enabled || params_uri(msg) is None || params_version(msg) is None
            || !versions.contains_key(params_uri(msg)->0) || params_version(msg)->0
            >= versions[params_uri(msg)->0],
    ensures
        filter_spec(msg, config, versions) == Some(retain_by_severity(msg, config.min_severity)),
{
}


proof fn lemma_filter_keeps_all(ds: Seq<Json>, pred: spec_fn(Json) -> bool)
    requires
        forall|i: int| 0 <= i < ds.len() ==> pred(#[trigger] ds[i]),
    ensures
        ds.filter(pred) == ds,
    decreases ds.len(),
{
    reveal_with_fuel(Seq::<_>::filter, 1);
    if ds.len() > 0 {
        let prev = ds.drop_last();
        assert forall|i: int| 0 <= i < prev.len() implies pred(#[trigger] prev[i]) by {
            assert(prev[i] == ds[i]);
        }
        lemma_filter_keeps_all(prev, pred);
        assert(pred(ds[ds.len() - 1]));
        assert(prev.push(ds.last()) =~= ds);
    }
}

/// A fresh `publishDiagnostics` none of whose diagnostics is above the threshold (an empty
/// list among them) is forwarded exactly as it came, while the drop switch is off.
pub proof fn lemma_within_threshold_unchanged(
    msg: Json,
    config: Config,
    versions: Map<Seq<char>, i64>,
)
    requires
        is_publish(msg),
        !config.drop_diagnostics,
        !config.stale_filter_enabled || params_uri(msg) is None || params_version(msg) is None
            || !versions.contains_key(params_uri(msg)->0) || params_version(msg)->0
            >= versions[params_uri(msg)->0],
        opt_get(msg.get("params"@), "diagnostics"@) matches Some(Json::Array(ds)) ==> forall|i: int|
            0 <= i < ds.len() ==> severity_of(#[trigger] ds[i]) <= config.min_severity,
    ensures
        filter_spec(msg, config, versions) == Some(msg),
{
    let min = config.min_severity;
    let pred = |d: Json| keep_diagnostic(d, min);
    if let Json::Object(es) = msg {
        lemma_key_index_bounds(es, "params"@);
        if let Some(pi) = key_index(es, "params"@) {
            if let Json::Object(pes) = es[pi].1 {
                lemma_key_index_bounds(pes, "diagnostics"@);
                if let Some(di) = key_index(pes, "diagnostics"@) {
                    if let Json::Array(ds) = pes[di].1 {
                        assert(msg.get("params"@) == Some(es[pi].1));
                        assert(forall|i: int| 0 <= i < ds.len() ==> pred(#[trigger] ds[i]));
                        lemma_filter_keeps_all(ds, pred);
                        assert(pes.update(di, (pes[di].0, Json::Array(ds))) =~= pes);
                        assert(es.update(pi, (es[pi].0, Json::Object(pes))) =~= es);
                    }
                }
            }
        }
    }
}

}
