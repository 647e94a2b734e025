//! The decisions of the proxy's two forwarding loops: which versions the client reports,
//! and which server messages are written, in what order, for each chunk read.
use vstd::prelude::*;
use crate::text::str_eq;
use crate::config::Config;
use crate::filter::{
    filter_message, filter_spec, is_publish, method_of, params_uri, params_version, VersionMap,
};
use crate::json::{
    entries_view, find_key, items_view, key_index, lemma_key_index_bounds, opt_as_i64, opt_as_str,
    opt_get, Json, JsonValue,
};

verus! {

/// The URI under which a forwarded message waits in the queue: `params.uri` of a
/// `publishDiagnostics` notification. Other messages are written at once.
pub open spec fn queue_key(m: Json) -> Option<Seq<char>> {
    if is_publish(m) {
        params_uri(m)
    } else {
        None
    }
}

/// The queue after `m` arrives under `key`: it replaces the entry for `key`, keeping its
/// place, or joins the end.
pub open spec fn queue_put(q: Seq<(Seq<char>, Json)>, key: Seq<char>, m: Json) -> Seq<
    (Seq<char>, Json),
> {
    match key_index(q, key) {
        Some(i) => q.update(i, (key, m)),
        None => q.push((key, m)),
    }
}

/// Walks the filter's answers for one chunk: the messages written at once, in order, and
/// the queue of the latest `publishDiagnostics` per URI.
pub open spec fn route_spec(outs: Seq<Option<Json>>) -> (Seq<Json>, Seq<(Seq<char>, Json)>)
    decreases outs.len(),
{
    if outs.len() == 0 {
        (seq![], seq![])
    } else {
        let (now, q) = route_spec(outs.drop_last());
        match outs.last() {
            None => (now, q),
            Some(m) => match queue_key(m) {
                Some(k) => (now, queue_put(q, k, m)),
                None => (now.push(m), q),
            },
        }
    }
}

/// The filter's answer for each message of a chunk.
pub open spec fn filter_all(msgs: Seq<Json>, config: Config, versions: Map<Seq<char>, i64>) -> Seq<
    Option<Json>,
> {
    Seq::new(msgs.len(), |i: int| filter_spec(msgs[i], config, versions))
}

/// What is written for one chunk of server messages: the messages that pass the filter and
/// are not queued, in order, then the queued `publishDiagnostics`, one per URI.
pub open spec fn chunk_output(msgs: Seq<Json>, config: Config, versions: Map<Seq<char>, i64>) -> Seq<
    Json,
> {
    let (now, q) = route_spec(filter_all(msgs, config, versions));
    now + Seq::new(q.len(), |i: int| q[i].1)
}

/// The URI under which `m` is queued, if it is a `publishDiagnostics` with one.
pub fn queue_key_of(m: &JsonValue) -> (r: Option<String>)
    ensures
        match r {
            Some(k) => queue_key(m.view()) == Some(k@),
            None => queue_key(m.view()) is None,
        },
{
    let publish = match m.get("method") {
        Some(v) => match v.as_str() {
            Some(s) => str_eq(s, "textDocument/publishDiagnostics"),
            None => false,
        },
        None => false,
    };
    if !publish {
        return None;
    }
    match m.get("params") {
        Some(p) => match p.get("uri") {
            Some(u) => match u.as_str() {
                Some(s) => Some(String::from_str(s)),
                None => None,
            },
            None => None,
        },
        None => None,
    }
}

/// Filters the server messages of one chunk and puts them in the order they are written:
/// messages other than `publishDiagnostics` with a URI go out at once, in order; of the
/// `publishDiagnostics` for each URI only the latest is written, after them, in the order in
/// which the URIs first came.
pub fn route_server_messages(msgs: &Vec<JsonValue>, config: &Config, versions: &VersionMap) -> (r:
    Vec<JsonValue>)
    ensures
        items_view(r@) == chunk_output(items_view(msgs@), *config, versions@),
{
    let ghost outs = filter_all(items_view(msgs@), *config, versions@);
    let mut now: Vec<JsonValue> = Vec::new();
    let mut queue: Vec<(String, JsonValue)> = Vec::new();
    let mut i: usize = 0;
    while i < msgs.len()
        invariant
            i <= msgs.len(),
            outs == filter_all(items_view(msgs@), *config, versions@),
            route_spec(outs.take(i as int)) == (items_view(now@), entries_view(queue@)),
        decreases msgs.len() - i,
    {
        assert(outs.take(i + 1).drop_last() =~= outs.take(i as int));
        assert(outs.take(i + 1).last() == outs[i as int]);
        let out = filter_message(&msgs[i], config, versions);
        match out {
            Some(m) => match queue_key_of(&m) {
                Some(k) => {
                    let ghost kv = k@;
                    let ghost mv = m.view();
                    match find_key(&queue, k.as_str()) {
                        Some(j) => {
                            let ghost before = entries_view(queue@);
                            queue.set(j, (k, m));
                            assert(entries_view(queue@) =~= before.update(j as int, (kv, mv)));
                        },
                        None => {
                            let ghost before = entries_view(queue@);
                            queue.push((k, m));
                            assert(entries_view(queue@) =~= before.push((kv, mv)));
                        },
                    }
                },
                None => {
                    let ghost before = items_view(now@);
                    let ghost mv = m.view();
                    now.push(m);
                    assert(items_view(now@) =~= before.push(mv));
                },
            },
            None => {},
        }
        i = i + 1;
    }
    assert(outs.take(msgs.len() as int) =~= outs);
    let ghost first = items_view(now@);
    let mut j: usize = 0;
    while j < queue.len()
        invariant
            j <= queue.len(),
            items_view(now@) == first + Seq::new(j as nat, |k: int| entries_view(queue@)[k].1),
        decreases queue.len() - j,
    {
        let c = queue[j].1.copy();
        let ghost before = items_view(now@);
        now.push(c);
        assert(items_view(now@) =~= before.push(c.view()));
        j = j + 1;
        assert(items_view(now@) =~= first + Seq::new(j as nat, |k: int| entries_view(queue@)[k].1));
    }
    now
}

/// The URI and version that a `didOpen` or `didChange` notification reports in
/// `params.textDocument`.
pub open spec fn reported_version(m: Json) -> Option<(Seq<char>, i64)> {
    if method_of(m) == Some("textDocument/didOpen"@) || method_of(m) == Some(
        "textDocument/didChange"@,
    ) {
        let doc = opt_get(m.get("params"@), "textDocument"@);
        match (opt_as_str(opt_get(doc, "uri"@)), opt_as_i64(opt_get(doc, "version"@))) {
            (Some(uri), Some(v)) => Some((uri, v)),
            _ => None,
        }
    } else {
        None
    }
}

/// The versions map after the client messages `msgs`, in order.
pub open spec fn track_spec(versions: Map<Seq<char>, i64>, msgs: Seq<Json>) -> Map<Seq<char>, i64>
    decreases msgs.len(),
{
    if msgs.len() == 0 {
        versions
    } else {
        let before = track_spec(versions, msgs.drop_last());
        match reported_version(msgs.last()) {
            Some((uri, v)) => before.insert(uri, v),
            None => before,
        }
    }
}

/// The URI and version that `m` reports, if it is a `didOpen` or `didChange` with both.
pub fn reported_version_of(m: &JsonValue) -> (r: Option<(String, i64)>)
    ensures
        match r {
            Some((u, v)) => reported_version(m.view()) == Some((u@, v)),
            None => reported_version(m.view()) is None,
        },
{
    let opens = match m.get("method") {
        Some(v) => match v.as_str() {
            Some(s) => str_eq(s, "textDocument/didOpen") || str_eq(s, "textDocument/didChange"),
            None => false,
        },
        None => false,
    };
    if !opens {
        return None;
    }
    let doc = match m.get("params") {
        Some(p) => p.get("textDocument"),
        None => None,
    };
    let uri = match doc {
        Some(d) => match d.get("uri") {
            Some(u) => u.as_str(),
            None => None,
        },
        None => None,
    };
    let version = match doc {
        Some(d) => match d.get("version") {
            Some(v) => v.as_i64(),
            None => None,
        },
        None => None,
    };
    match (uri, version) {
        (Some(u), Some(v)) => Some((String::from_str(u), v)),
        _ => None,
    }
}

/// Records the versions that the client messages `msgs` report: each `didOpen` and
/// `didChange` with a URI and a version sets that URI's version.
pub fn track_client_messages(versions: &mut VersionMap, msgs: &Vec<JsonValue>)
    ensures
        final(versions)@ == track_spec(old(versions)@, items_view(msgs@)),
{
    let ghost ms = items_view(msgs@);
    let mut i: usize = 0;
    while i < msgs.len()
        invariant
            i <= msgs.len(),
            ms == items_view(msgs@),
            versions@ == track_spec(old(versions)@, ms.take(i as int)),
        decreases msgs.len() - i,
    {
        assert(ms.take(i + 1).drop_last() =~= ms.take(i as int));
        match reported_version_of(&msgs[i]) {
            Some((u, v)) => versions.insert(u, v),
            None => {},
        }
        i = i + 1;
    }
    assert(ms.take(msgs.len() as int) =~= ms);
}

/// How the proxy's run ended.
pub enum ChildOutcome {
    /// The server could not be started.
    SpawnFailed,
    /// Waiting for the server failed.
    WaitFailed,
    /// The server exited, with its exit code when it has one.
    Exited(Option<i32>),
}

/// The proxy's exit code: the server's own, and 1 when it could not be started, could not
/// be waited for, or ended without a code.
pub fn exit_code(outcome: ChildOutcome) -> (r: i32)
    ensures
        r == match outcome {
            ChildOutcome::Exited(Some(c)) => c,
            _ => 1i32,
        },
{
    match outcome {
        ChildOutcome::Exited(Some(c)) => c,
        _ => 1,
    }
}


/// Whether `o` is a forwarded message queued under `key`.
pub open spec fn queued_under(o: Option<Json>, key: Seq<char>) -> bool {
    o matches Some(m) && queue_key(m) == Some(key)
}

/// Whether `outs[idx]` is the last message of `outs` queued under `key`.
pub open spec fn last_queued(outs: Seq<Option<Json>>, idx: int, key: Seq<char>) -> bool {
    &&& 0 <= idx < outs.len()
    &&& queued_under(outs[idx], key)
    &&& forall|j: int| idx < j < outs.len() ==> !queued_under(#[trigger] outs[j], key)
}

proof fn lemma_last_queued_extend(outs: Seq<Option<Json>>, idx: int, key: Seq<char>)
    requires
        outs.len() > 0,
        last_queued(outs.drop_last(), idx, key),
        !queued_under(outs.last(), key),
    ensures
        last_queued(outs, idx, key),
{
    let prev = outs.drop_last();
    assert forall|j: int| idx < j < outs.len() implies !queued_under(#[trigger] outs[j], key) by {
        if j < prev.len() {
            assert(outs[j] == prev[j]);
        }
    }
    assert(outs[idx] == prev[idx]);
}

/// Each URI of the queue is there once.
pub open spec fn keys_unique(q: Seq<(Seq<char>, Json)>) -> bool {
    forall|a: int, b: int| 0 <= a < b < q.len() ==> #[trigger] q[a].0 != #[trigger] q[b].0
}

/// The message the queue holds for each URI is the last one of `outs` queued under it.
pub open spec fn holds_latest(outs: Seq<Option<Json>>, q: Seq<(Seq<char>, Json)>) -> bool {
    forall|a: int| 0 <= a < q.len() ==> #[trigger] latest_at(outs, q, a)
}

/// Entry `a` of the queue holds the last message of `outs` queued under its URI.
pub open spec fn latest_at(outs: Seq<Option<Json>>, q: Seq<(Seq<char>, Json)>, a: int) -> bool {
    exists|idx: int| #[trigger] last_queued(outs, idx, q[a].0) && outs[idx] == Some(q[a].1)
}

/// Every URI under which a message of `outs` was queued is in the queue.
pub open spec fn covers_queued(outs: Seq<Option<Json>>, q: Seq<(Seq<char>, Json)>) -> bool {
    forall|idx: int, key: Seq<char>|
        0 <= idx < outs.len() && #[trigger] queued_under(outs[idx], key) ==> exists|a: int|
            0 <= a < q.len() && (#[trigger] q[a]).0 == key
}

/// Only the latest `publishDiagnostics` per URI is written for a chunk: the queue holds each
/// URI once, the message it holds for a URI is the last one of the chunk queued under that
/// URI, and every URI under which a message was queued is in it.
pub proof fn lemma_latest_per_uri(outs: Seq<Option<Json>>)
    ensures
        keys_unique(route_spec(outs).1),
        holds_latest(outs, route_spec(outs).1),
        covers_queued(outs, route_spec(outs).1),
    decreases outs.len(),
{
    if outs.len() > 0 {
        let prev = outs.drop_last();
        lemma_latest_per_uri(prev);
        let q0 = route_spec(prev).1;
        let q = route_spec(outs).1;
        let n = outs.len() - 1;
        assert(forall|j: int| 0 <= j < n ==> outs[j] == #[trigger] prev[j]);
        let last = outs.last();
        if last matches Some(m) && queue_key(m) is Some {
            let m = last->0;
            let k = queue_key(m)->0;
            lemma_key_index_bounds(q0, k);
            assert(queued_under(outs[n], k));
            let slot = match key_index(q0, k) {
                Some(i) => i,
                None => q0.len() as int,
            };
            assert(q == queue_put(q0, k, m));
            assert(q.len() == q0.len() || q.len() == q0.len() + 1);
            assert(q[slot] == (k, m));
            assert(forall|a: int| 0 <= a < q0.len() && a != slot ==> q[a] == q0[a]);
            assert forall|a: int, b: int| 0 <= a < b < q.len() implies #[trigger] q[a].0
                != #[trigger] q[b].0 by {
                if a != slot && b != slot {
                    assert(q[a] == q0[a] && q[b] == q0[b]);
                } else if a == slot {
                    assert(q[b] == q0[b]);
                } else {
                    assert(q[a] == q0[a]);
                }
            }
            assert forall|a: int| 0 <= a < q.len() implies #[trigger] latest_at(outs, q, a) by {
                if a == slot {
                    assert(last_queued(outs, n, q[a].0));
                } else {
                    assert(q[a] == q0[a]);
                    assert(latest_at(prev, q0, a));
                    let idx = choose|idx: int|
                        #[trigger] last_queued(prev, idx, q0[a].0) && prev[idx] == Some(q0[a].1);
                    assert(q0[a].0 != k);
                    lemma_last_queued_extend(outs, idx, q0[a].0);
                    assert(outs[idx] == prev[idx]);
                }
            }
            assert forall|idx: int, key: Seq<char>|
                0 <= idx < outs.len() && #[trigger] queued_under(outs[idx], key) implies exists|a: int|
                    0 <= a < q.len() && (#[trigger] q[a]).0 == key by {
                if idx == n {
                    assert(q[slot].0 == key);
                } else {
                    assert(queued_under(prev[idx], key));
                    let a = choose|a: int| 0 <= a < q0.len() && (#[trigger] q0[a]).0 == key;
                    if a == slot {
                        assert(q[slot].0 == key);
                    } else {
                        assert(q[a] == q0[a]);
                    }
                }
            }
        } else {
            assert(q == q0);
            assert forall|a: int| 0 <= a < q.len() implies #[trigger] latest_at(outs, q, a) by {
                assert(latest_at(prev, q0, a));
                let idx = choose|idx: int|
                    #[trigger] last_queued(prev, idx, q0[a].0) && prev[idx] == Some(q0[a].1);
                lemma_last_queued_extend(outs, idx, q0[a].0);
                assert(outs[idx] == prev[idx]);
            }
            assert forall|idx: int, key: Seq<char>|
                0 <= idx < outs.len() && #[trigger] queued_under(outs[idx], key) implies exists|a: int|
                    0 <= a < q.len() && (#[trigger] q[a]).0 == key by {
                assert(idx < n);
                assert(queued_under(prev[idx], key));
            }
        }
    }
}

/// The tracked version of a URI is the one that the latest report for it gave.
pub proof fn lemma_latest_report_tracked(
    versions: Map<Seq<char>, i64>,
    msgs: Seq<Json>,
    i: int,
    uri: Seq<char>,
    v: i64,
)
    requires
        0 <= i < msgs.len(),
        reported_version(msgs[i]) == Some((uri, v)),
        forall|j: int|
            i < j < msgs.len() ==> !(#[trigger] reported_version(msgs[j]) matches Some((u, _))
                && u == uri),
    ensures
        track_spec(versions, msgs).contains_key(uri),
        track_spec(versions, msgs)[uri] == v,
    decreases msgs.len(),
{
    if i < msgs.len() - 1 {
        let prev = msgs.drop_last();
        assert(forall|j: int| 0 <= j < prev.len() ==> prev[j] == msgs[j]);
        assert(!(reported_version(msgs[msgs.len() - 1]) matches Some((u, _)) && u == uri));
        lemma_latest_report_tracked(versions, prev, i, uri, v);
    }
}

/// The URI of a version report.
pub open spec fn report_uri(m: Json) -> Seq<char> {
    match reported_version(m) {
        Some((u, _)) => u,
        None => Seq::empty(),
    }
}

/// The version of a version report.
pub open spec fn report_version(m: Json) -> i64 {
    match reported_version(m) {
        Some((_, v)) => v,
        None => 0,
    }
}

/// Once the client has reported version `v` of a URI, and reported nothing newer for it, a
/// `publishDiagnostics` for that URI with an older version is dropped while the stale filter
/// is on.
pub proof fn lemma_older_diagnostics_dropped(
    versions: Map<Seq<char>, i64>,
    msgs: Seq<Json>,
    i: int,
    msg: Json,
    config: Config,
)
    requires
        0 <= i < msgs.len(),
        reported_version(msgs[i]) is Some,
        forall|j: int|
            i < j < msgs.len() ==> !(#[trigger] reported_version(msgs[j]) matches Some((u, _))
                && u == report_uri(msgs[i])),
        is_publish(msg),
        config.stale_filter_enabled,
        params_uri(msg) == Some(report_uri(msgs[i])),
        params_version(msg) matches Some(w) && w < report_version(msgs[i]),
    ensures
        filter_spec(msg, config, track_spec(versions, msgs)) is None,
{
    let uri = report_uri(msgs[i]);
    let v = report_version(msgs[i]);
    lemma_latest_report_tracked(versions, msgs, i, uri, v);
}


proof fn lemma_route_plain(outs: Seq<Option<Json>>, msgs: Seq<Json>)
    requires
        outs.len() == msgs.len(),
        forall|i: int| 0 <= i < msgs.len() ==> outs[i] == Some(#[trigger] msgs[i]) && !is_publish(
            msgs[i],
        ),
    ensures
        route_spec(outs) == (msgs, Seq::<(Seq<char>, Json)>::empty()),
    decreases outs.len(),
{
    if outs.len() > 0 {
        let k = outs.len() - 1;
        assert(outs[k] == Some(msgs[k]));
        lemma_route_plain(outs.drop_last(), msgs.drop_last());
        assert(msgs.drop_last().push(msgs[k]) =~= msgs);
    } else {
        assert(msgs =~= Seq::<Json>::empty());
    }
}

/// A chunk without `publishDiagnostics` notifications is written as it came: every message,
/// unchanged, in order.
pub proof fn lemma_plain_chunk_unchanged(
    msgs: Seq<Json>,
    config: Config,
    versions: Map<Seq<char>, i64>,
)
    requires
        forall|i: int| 0 <= i < msgs.len() ==> !is_publish(#[trigger] msgs[i]),
    ensures
        chunk_output(msgs, config, versions) == msgs,
{
    let outs = filter_all(msgs, config, versions);
    lemma_route_plain(outs, msgs);
    assert(chunk_output(msgs, config, versions) =~= msgs);
}


/// No message of `msgs` reports a version of `uri`.
pub open spec fn never_reported(msgs: Seq<Json>, uri: Seq<char>) -> bool {
    forall|j: int|
        0 <= j < msgs.len() ==> !(#[trigger] reported_version(msgs[j]) matches Some((u, _))
            && u == uri)
}

/// A URI that none of the messages reports keeps what it had: tracked with the same version
/// when it was tracked, untracked when it was not.
pub proof fn lemma_unreported_unchanged(
    versions: Map<Seq<char>, i64>,
    msgs: Seq<Json>,
    uri: Seq<char>,
)
    requires
        never_reported(msgs, uri),
    ensures
        track_spec(versions, msgs).contains_key(uri) == versions.contains_key(uri),
        versions.contains_key(uri) ==> track_spec(versions, msgs)[uri] == versions[uri],
    decreases msgs.len(),
{
    if msgs.len() > 0 {
        let prev = msgs.drop_last();
        assert forall|j: int| 0 <= j < prev.len() implies !(#[trigger] reported_version(prev[j]) matches Some((u, _))
            && u == uri) by {
            assert(prev[j] == msgs[j]);
        }
        assert(!(reported_version(msgs[msgs.len() - 1]) matches Some((u, _)) && u == uri));
        lemma_unreported_unchanged(versions, prev, uri);
    }
}

/// Every URI reported by some message is tracked afterwards, with the version of the last
/// message that reports it.
pub proof fn lemma_reported_tracked(versions: Map<Seq<char>, i64>, msgs: Seq<Json>, i: int)
    requires
        0 <= i < msgs.len(),
        reported_version(msgs[i]) is Some,
    ensures
        track_spec(versions, msgs).contains_key(report_uri(msgs[i])),
        (forall|j: int|
            i < j < msgs.len() ==> !(#[trigger] reported_version(msgs[j]) matches Some((u, _))
                && u == report_uri(msgs[i]))) ==> track_spec(versions, msgs)[report_uri(msgs[i])]
            == report_version(msgs[i]),
    decreases msgs.len(),
{
    let uri = report_uri(msgs[i]);
    if i < msgs.len() - 1 {
        let prev = msgs.drop_last();
        assert(prev[i] == msgs[i]);
        lemma_reported_tracked(versions, prev, i);
        let last = msgs[msgs.len() - 1];
        if forall|j: int|
            i < j < msgs.len() ==> !(#[trigger] reported_version(msgs[j]) matches Some((u, _))
                && u == uri) {
            lemma_latest_report_tracked(versions, msgs, i, uri, report_version(msgs[i]));
        }
    }
}


/// Whether `o` is a forwarded message that is written at once rather than queued.
pub open spec fn written_at_once(o: Option<Json>) -> bool {
    o matches Some(m) && queue_key(m) is None
}

/// The forwarded message in `o` (meaningful when `o` holds one).
pub open spec fn forwarded(o: Option<Json>) -> Json {
    match o {
        Some(m) => m,
        None => Json::Null,
    }
}

/// The messages written at once for a chunk are exactly the forwarded messages that are not
/// queued under a URI, in the order in which they came, whatever else the chunk holds.
pub proof fn lemma_written_at_once_in_order(outs: Seq<Option<Json>>)
    ensures
        route_spec(outs).0 == outs.filter(|o: Option<Json>| written_at_once(o)).map_values(
            |o: Option<Json>| forwarded(o),
        ),
    decreases outs.len(),
{
    let pred = |o: Option<Json>| written_at_once(o);
    let f = |o: Option<Json>| forwarded(o);
    reveal_with_fuel(Seq::<_>::filter, 1);
    if outs.len() == 0 {
        assert(outs.filter(pred) =~= Seq::<Option<Json>>::empty());
        assert(outs.filter(pred).map_values(f) =~= Seq::<Json>::empty());
    } else {
        let prev = outs.drop_last();
        lemma_written_at_once_in_order(prev);
        let before = prev.filter(pred);
        if pred(outs.last()) {
            assert(outs.filter(pred) == before.push(outs.last()));
            assert(before.push(outs.last()).map_values(f) =~= before.map_values(f).push(
                f(outs.last()),
            ));
        } else {
            assert(outs.filter(pred) == before);
        }
    }
}


proof fn lemma_queue_keys(outs: Seq<Option<Json>>)
    ensures
        forall|a: int|
            0 <= a < route_spec(outs).1.len() ==> queue_key((#[trigger] route_spec(outs).1[a]).1)
                == Some(route_spec(outs).1[a].0),
    decreases outs.len(),
{
    if outs.len() > 0 {
        let prev = outs.drop_last();
        lemma_queue_keys(prev);
        let q0 = route_spec(prev).1;
        if let Some(m) = outs.last() {
            if let Some(k) = queue_key(m) {
                lemma_key_index_bounds(q0, k);
            }
        }
    }
}

/// What is written for a chunk starts with the forwarded messages that are not queued, in
/// the order in which they came; everything after them is a queued `publishDiagnostics`,
/// one per URI.
pub proof fn lemma_chunk_output_order(
    msgs: Seq<Json>,
    config: Config,
    versions: Map<Seq<char>, i64>,
)
    ensures
        ({
            let outs = filter_all(msgs, config, versions);
            let now = outs.filter(|o: Option<Json>| written_at_once(o)).map_values(
                |o: Option<Json>| forwarded(o),
            );
            let out = chunk_output(msgs, config, versions);
            &&& now.len() <= out.len()
            &&& out.subrange(0, now.len() as int) == now
            &&& forall|k: int|
                now.len() <= k < out.len() ==> #[trigger] queue_key(out[k]) is Some
            &&& forall|a: int, b: int|
                now.len() <= a < b < out.len() ==> queue_key(#[trigger] out[a]) != queue_key(
                    #[trigger] out[b],
                )
        }),
{
    let outs = filter_all(msgs, config, versions);
    lemma_written_at_once_in_order(outs);
    lemma_queue_keys(outs);
    lemma_latest_per_uri(outs);
    let (now, q) = route_spec(outs);
    let out = chunk_output(msgs, config, versions);
    assert(out.subrange(0, now.len() as int) =~= now);
    assert forall|k: int| now.len() <= k < out.len() implies #[trigger] queue_key(out[k]) is Some by {
        assert(out[k] == q[k - now.len()].1);
        assert(queue_key(q[k - now.len()].1) == Some(q[k - now.len()].0));
    }
    assert forall|a: int, b: int|
        now.len() <= a < b < out.len() implies queue_key(#[trigger] out[a]) != queue_key(
            #[trigger] out[b],
        ) by {
        let x = a - now.len();
        let y = b - now.len();
        assert(out[a] == q[x].1);
        assert(out[b] == q[y].1);
        assert(queue_key(q[x].1) == Some(q[x].0));
        assert(queue_key(q[y].1) == Some(q[y].0));
        assert(q[x].0 != q[y].0);
    }
}

}
