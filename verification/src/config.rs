//! Settings read from the `STAY_FRESH_*` environment variables.
use vstd::prelude::*;
use vstd::utf8::is_ascii_chars;
use crate::text::{
    ascii_lower, chars_eq_str, chars_of, decimal_spec, is_digit, is_white_space,
    lemma_decimal_digits, lemma_parse_decimal, lowercase_spec, parse_unsigned, parse_unsigned_spec,
    str_eq, to_lowercase, trim, trim_end_spec, trim_spec, trim_start_spec,
};

verus! {

/// How diagnostics are filtered.
#[derive(Debug, Clone, Copy)]
pub struct Config {
    /// When true, all textDocument/publishDiagnostics notifications are dropped.
    pub drop_diagnostics: bool,
    /// Maximum severity to keep when drop_diagnostics is false.
    /// 1=Error, 2=Warning, 3=Info, 4=Hint.
    pub min_severity: u8,
    /// When true, drop publishDiagnostics whose version is older than
    /// the last didOpen/didChange version (stale).
    pub stale_filter_enabled: bool,
    /// When true, emit debug log to stderr.
    pub log_enabled: bool,
}

pub open spec fn drop_var() -> Seq<char> {
    "STAY_FRESH_DROP_DIAGNOSTICS"@
}

pub open spec fn severity_var() -> Seq<char> {
    "STAY_FRESH_MIN_SEVERITY"@
}

pub open spec fn stale_var() -> Seq<char> {
    "STAY_FRESH_STALE_FILTER"@
}

pub open spec fn log_var() -> Seq<char> {
    "STAY_FRESH_LOG"@
}

/// The value of the first variable named `key`, if any.
pub open spec fn lookup_spec(vars: Seq<(&str, &str)>, key: Seq<char>) -> Option<Seq<char>>
    decreases vars.len(),
{
    if vars.len() == 0 {
        None
    } else if vars[0].0@ == key {
        Some(vars[0].1@)
    } else {
        lookup_spec(vars.drop_first(), key)
    }
}

/// A switch that is on unless its value, trimmed and lower-cased, is `false`; on when unset.
pub open spec fn on_unless_false(v: Option<Seq<char>>) -> bool {
    match v {
        Some(s) => lowercase_spec(trim_spec(s)) != "false"@,
        None => true,
    }
}

/// A switch that is on only when its value, trimmed and lower-cased, is `true`.
pub open spec fn on_if_true(v: Option<Seq<char>>) -> bool {
    match v {
        Some(s) => lowercase_spec(trim_spec(s)) == "true"@,
        None => false,
    }
}

/// The trimmed value read as a `u8`; 1 when unset or unreadable.
pub open spec fn severity_setting(v: Option<Seq<char>>) -> u8 {
    match v {
        Some(s) => match parse_unsigned_spec(trim_spec(s), 255) {
            Some(n) => n as u8,
            None => 1,
        },
        None => 1,
    }
}

/// The configuration that the variables `vars` describe.
pub open spec fn config_spec(vars: Seq<(&str, &str)>) -> Config {
    Config {
        drop_diagnostics: on_unless_false(lookup_spec(vars, drop_var())),
        min_severity: severity_setting(lookup_spec(vars, severity_var())),
        stale_filter_enabled: on_unless_false(lookup_spec(vars, stale_var())),
        log_enabled: on_if_true(lookup_spec(vars, log_var())),
    }
}

fn lookup<'a>(vars: &[(&'a str, &'a str)], key: &str) -> (r: Option<&'a str>)
    ensures
        match r {
            Some(v) => lookup_spec(vars@, key@) == Some(v@),
            None => lookup_spec(vars@, key@) is None,
        },
{
    let mut i: usize = 0;
    assert(vars@.skip(0) =~= vars@);
    while i < vars.len()
        invariant
            i <= vars@.len(),
            lookup_spec(vars@, key@) == lookup_spec(vars@.skip(i as int), key@),
        decreases vars@.len() - i,
    {
        assert(vars@.skip(i as int).drop_first() =~= vars@.skip(i + 1));
        assert(vars@.skip(i as int)[0] == vars@[i as int]);
        if str_eq(vars[i].0, key) {
            return Some(vars[i].1);
        }
        i = i + 1;
    }
    None
}

/// The trimmed, lower-cased characters of the value `v`, if set.
fn normalized(v: Option<&str>) -> (r: Option<Vec<char>>)
    ensures
        match (v, r) {
            (Some(s), Some(n)) => n@ == lowercase_spec(trim_spec(s@)),
            (None, None) => true,
            _ => false,
        },
{
    match v {
        Some(s) => {
            let cs = chars_of(s);
            let t = trim(cs.as_slice());
            Some(to_lowercase(t.as_slice()))
        },
        None => None,
    }
}

/// A switch given its trimmed, lower-cased value: on unless the value is `false`, and on
/// when unset.
pub fn on_unless_false_value(normalized: Option<&[char]>) -> (r: bool)
    ensures
        r == match normalized {
            Some(n) => n@ != "false"@,
            None => true,
        },
{
    match normalized {
        Some(n) => !chars_eq_str(n, "false"),
        None => true,
    }
}

/// A switch given its trimmed, lower-cased value: on only when the value is `true`.
pub fn on_if_true_value(normalized: Option<&[char]>) -> (r: bool)
    ensures
        r == match normalized {
            Some(n) => n@ == "true"@,
            None => false,
        },
{
    match normalized {
        Some(n) => chars_eq_str(n, "true"),
        None => false,
    }
}

fn as_chars(v: &Option<Vec<char>>) -> (r: Option<&[char]>)
    ensures
        match (v, r) {
            (Some(a), Some(b)) => a@ == b@,
            (None, None) => true,
            _ => false,
        },
{
    match v {
        Some(a) => Some(a.as_slice()),
        None => None,
    }
}

impl Config {
    /// Reads the configuration from the variables `vars`, given as name and value pairs
    /// (the first pair with a name counts). A variable that is absent takes its default:
    /// diagnostics dropped, severity 1, stale filter on, log off.
    pub fn from_source(vars: &[(&str, &str)]) -> (r: Config)
        ensures
            r == config_spec(vars@),
    {
        let drop_value = normalized(lookup(vars, "STAY_FRESH_DROP_DIAGNOSTICS"));
        let drop_diagnostics = on_unless_false_value(as_chars(&drop_value));
        let min_severity: u8 = match lookup(vars, "STAY_FRESH_MIN_SEVERITY") {
            Some(v) => {
                let cs = chars_of(v);
                let t = trim(cs.as_slice());
                match parse_unsigned(t.as_slice(), 255) {
                    Some(n) => n as u8,
                    None => 1,
                }
            },
            None => 1,
        };
        let stale_value = normalized(lookup(vars, "STAY_FRESH_STALE_FILTER"));
        let stale_filter_enabled = on_unless_false_value(as_chars(&stale_value));
        let log_value = normalized(lookup(vars, "STAY_FRESH_LOG"));
        let log_enabled = on_if_true_value(as_chars(&log_value));
        Config { drop_diagnostics, min_severity, stale_filter_enabled, log_enabled }
    }

    /// Whether debug logging is on.
    pub fn log_enabled(&self) -> (r: bool)
        ensures
            r == self.log_enabled,
    {
        self.log_enabled
    }
}


/// With none of the variables set, diagnostics are dropped, the severity threshold is 1,
/// the stale filter is on and logging is off.
pub proof fn lemma_defaults(vars: Seq<(&str, &str)>)
    requires
        lookup_spec(vars, drop_var()) is None,
        lookup_spec(vars, severity_var()) is None,
        lookup_spec(vars, stale_var()) is None,
        lookup_spec(vars, log_var()) is None,
    ensures
        config_spec(vars) == (Config {
            drop_diagnostics: true,
            min_severity: 1,
            stale_filter_enabled: true,
            log_enabled: false,
        }),
{
}


/// No pair of `vars` is named `name`.
pub open spec fn unset(vars: Seq<(&str, &str)>, name: Seq<char>) -> bool {
    forall|i: int| 0 <= i < vars.len() ==> (#[trigger] vars[i]).0@ != name
}

/// Pair `i` is the first pair of `vars` named `name`.
pub open spec fn first_named(vars: Seq<(&str, &str)>, name: Seq<char>, i: int) -> bool {
    &&& 0 <= i < vars.len()
    &&& vars[i].0@ == name
    &&& forall|j: int| 0 <= j < i ==> (#[trigger] vars[j]).0@ != name
}

proof fn lemma_lookup_unset(vars: Seq<(&str, &str)>, name: Seq<char>)
    requires
        unset(vars, name),
    ensures
        lookup_spec(vars, name) is None,
    decreases vars.len(),
{
    if vars.len() > 0 {
        assert(vars[0].0@ != name);
        assert forall|i: int| 0 <= i < vars.drop_first().len() implies (#[trigger] vars.drop_first()[i]).0@
            != name by {
            assert(vars.drop_first()[i] == vars[i + 1]);
        }
        lemma_lookup_unset(vars.drop_first(), name);
    }
}

proof fn lemma_lookup_first(vars: Seq<(&str, &str)>, name: Seq<char>, i: int)
    requires
        first_named(vars, name, i),
    ensures
        lookup_spec(vars, name) == Some(vars[i].1@),
    decreases vars.len(),
{
    if i > 0 {
        assert(vars[0].0@ != name);
        let rest = vars.drop_first();
        assert forall|j: int| 0 <= j < i - 1 implies (#[trigger] rest[j]).0@ != name by {
            assert(rest[j] == vars[j + 1]);
        }
        assert(rest[i - 1] == vars[i]);
        lemma_lookup_first(rest, name, i - 1);
    }
}

/// A variable that is not set leaves its setting at the default, whatever the other
/// variables hold: diagnostics dropped, severity 1, stale filter on, log off.
pub proof fn lemma_unset_defaults(vars: Seq<(&str, &str)>)
    ensures
        unset(vars, drop_var()) ==> config_spec(vars).drop_diagnostics,
        unset(vars, severity_var()) ==> config_spec(vars).min_severity == 1,
        unset(vars, stale_var()) ==> config_spec(vars).stale_filter_enabled,
        unset(vars, log_var()) ==> !config_spec(vars).log_enabled,
{
    if unset(vars, drop_var()) {
        lemma_lookup_unset(vars, drop_var());
    }
    if unset(vars, severity_var()) {
        lemma_lookup_unset(vars, severity_var());
    }
    if unset(vars, stale_var()) {
        lemma_lookup_unset(vars, stale_var());
    }
    if unset(vars, log_var()) {
        lemma_lookup_unset(vars, log_var());
    }
}

/// Pairs named otherwise than a setting's variable do not change that setting, wherever they
/// stand.
pub proof fn lemma_other_variables_ignored(
    vars: Seq<(&str, &str)>,
    more: Seq<(&str, &str)>,
)
    ensures
        unset(more, drop_var()) ==> config_spec(vars + more).drop_diagnostics == config_spec(
            vars,
        ).drop_diagnostics && config_spec(more + vars).drop_diagnostics == config_spec(
            vars,
        ).drop_diagnostics,
        unset(more, severity_var()) ==> config_spec(vars + more).min_severity == config_spec(
            vars,
        ).min_severity && config_spec(more + vars).min_severity == config_spec(vars).min_severity,
        unset(more, stale_var()) ==> config_spec(vars + more).stale_filter_enabled
            == config_spec(vars).stale_filter_enabled && config_spec(more + vars).stale_filter_enabled
            == config_spec(vars).stale_filter_enabled,
        unset(more, log_var()) ==> config_spec(vars + more).log_enabled == config_spec(
            vars,
        ).log_enabled && config_spec(more + vars).log_enabled == config_spec(vars).log_enabled,
{
    lemma_lookup_append(vars, more, drop_var());
    lemma_lookup_append(vars, more, severity_var());
    lemma_lookup_append(vars, more, stale_var());
    lemma_lookup_append(vars, more, log_var());
}

proof fn lemma_lookup_append(vars: Seq<(&str, &str)>, more: Seq<(&str, &str)>, name: Seq<char>)
    ensures
        unset(more, name) ==> lookup_spec(vars + more, name) == lookup_spec(vars, name)
            && lookup_spec(more + vars, name) == lookup_spec(vars, name),
    decreases vars.len() + more.len(),
{
    if unset(more, name) {
        if vars.len() == 0 {
            assert(vars + more =~= more);
            assert(more + vars =~= more);
            lemma_lookup_unset(more, name);
        } else {
            assert((vars + more).drop_first() =~= vars.drop_first() + more);
            lemma_lookup_append(vars.drop_first(), more, name);
        }
        if more.len() > 0 {
            assert((more + vars).drop_first() =~= more.drop_first() + vars);
            assert(more[0].0@ != name);
            assert(unset(more.drop_first(), name)) by {
                assert forall|i: int| 0 <= i < more.drop_first().len() implies (#[trigger] more.drop_first()[i]).0@
                    != name by {
                    assert(more.drop_first()[i] == more[i + 1]);
                }
            }
            lemma_lookup_append(vars, more.drop_first(), name);
        } else {
            assert(more + vars =~= vars);
        }
    }
}

proof fn lemma_normalized_word(s: Seq<char>)
    requires
        s.len() > 0,
        forall|i: int| 0 <= i < s.len() ==> 'a' <= #[trigger] s[i] <= 'z',
    ensures
        lowercase_spec(trim_spec(s)) == s,
{
    assert(!is_white_space(s[0]));
    assert(trim_start_spec(s) == s);
    assert(!is_white_space(s.last())) by {
        assert('a' <= s[s.len() - 1] <= 'z');
    }
    assert(trim_end_spec(s) == s);
    assert(is_ascii_chars(s));
    assert(ascii_lower(s) =~= s);
}

/// A switch variable whose value is `false` turns its setting off, and a log variable whose
/// value is `true` turns logging on; a severity variable holding a numeral up to 255 sets
/// that severity. The first pair with the variable's name counts.
pub proof fn lemma_set_values(vars: Seq<(&str, &str)>, i: int, n: nat)
    ensures
        first_named(vars, drop_var(), i) && vars[i].1@ == "false"@ ==> !config_spec(
            vars,
        ).drop_diagnostics,
        first_named(vars, stale_var(), i) && vars[i].1@ == "false"@ ==> !config_spec(
            vars,
        ).stale_filter_enabled,
        first_named(vars, log_var(), i) && vars[i].1@ == "true"@ ==> config_spec(vars).log_enabled,
        first_named(vars, severity_var(), i) && vars[i].1@ == decimal_spec(n) && n <= 255
            ==> config_spec(vars).min_severity == n,
{
    reveal_strlit("false");
    reveal_strlit("true");
    lemma_normalized_word("false"@);
    lemma_normalized_word("true"@);
    if first_named(vars, drop_var(), i) {
        lemma_lookup_first(vars, drop_var(), i);
    }
    if first_named(vars, stale_var(), i) {
        lemma_lookup_first(vars, stale_var(), i);
    }
    if first_named(vars, log_var(), i) {
        lemma_lookup_first(vars, log_var(), i);
    }
    if first_named(vars, severity_var(), i) && vars[i].1@ == decimal_spec(n) && n <= 255 {
        lemma_lookup_first(vars, severity_var(), i);
        lemma_decimal_digits(n);
        let d = decimal_spec(n);
        assert(!is_white_space(d[0])) by {
            assert(is_digit(d[0]));
        }
        assert(trim_start_spec(d) == d);
        assert(!is_white_space(d.last())) by {
            assert(is_digit(d[d.len() - 1]));
        }
        assert(trim_end_spec(d) == d);
        lemma_parse_decimal(n, 255);
    }
}

}
