//! Configurations as YAML and JSON.

use crate::config::{collected, increasing, listing, pair_views, Assignment, Config};
use std::collections::BTreeMap;
use vstd::prelude::*;

verus! {

/// Why a YAML text could not be read or written.
#[verifier::external_type_specification]
#[verifier::external_body]
pub struct ExYamlError(serde_yaml::Error);

/// Why a JSON text could not be read or written.
#[verifier::external_type_specification]
#[verifier::external_body]
pub struct ExJsonError(serde_json::Error);

/// A value in a YAML mapping.
#[derive(Debug)]
pub enum YamlScalar {
    Text(String),
    Bool(bool),
    /// A number, as it is written.
    Number(String),
    /// Anything but a string, a boolean or a number.
    Other,
}

/// A value in a YAML mapping.
pub enum ScalarView {
    Text(Seq<char>),
    Bool(bool),
    Number(Seq<char>),
    Other,
}

impl View for YamlScalar {
    type V = ScalarView;

    open spec fn view(&self) -> ScalarView {
        match *self {
            YamlScalar::Text(s) => ScalarView::Text(s@),
            YamlScalar::Bool(b) => ScalarView::Bool(b),
            YamlScalar::Number(s) => ScalarView::Number(s@),
            YamlScalar::Other => ScalarView::Other,
        }
    }
}

/// The name of an entry of a YAML mapping, if it is a string, and its value.
pub type YamlEntry = (Option<String>, YamlScalar);

/// The entry of a YAML mapping as mathematical values.
pub open spec fn entry_view(e: YamlEntry) -> (Option<Seq<char>>, ScalarView) {
    (
        match e.0 {
            Some(s) => Some(s@),
            None => None,
        },
        e.1@,
    )
}

/// The entries of a YAML mapping as mathematical values.
pub open spec fn entry_views(entries: Seq<YamlEntry>) -> Seq<(Option<Seq<char>>, ScalarView)> {
    entries.map_values(|e: YamlEntry| entry_view(e))
}

/// What `serde_yaml::from_str` reads of a text as a value: nothing where it
/// fails; of a mapping its entries in order; of anything else that it is none.
pub uninterp spec fn yaml_reading(text: Seq<char>) -> Option<Option<Seq<(Option<Seq<char>>, ScalarView)>>>;

/// `serde_yaml::from_str` into `serde_yaml::Value`, with the entries of the
/// value if it is a mapping, numbers as `serde_yaml::Number` displays them. The
/// outcome depends on the text alone.
#[verifier::external_body]
fn read_yaml(text: &str) -> (r: Result<Option<Vec<YamlEntry>>, serde_yaml::Error>)
    ensures
        match r {
            Ok(Some(entries)) => yaml_reading(text@) == Some(Some(entry_views(entries@))),
            Ok(None) => yaml_reading(text@) == Some(None::<Seq<(Option<Seq<char>>, ScalarView)>>),
            Err(_) => yaml_reading(text@) is None,
        },
{
    let value: serde_yaml::Value = serde_yaml::from_str(text)?;
    Ok(value.as_mapping().map(|m| m.iter().map(|(k, v)| (k.as_str().map(str::to_string), match v {
        serde_yaml::Value::String(s) => YamlScalar::Text(s.clone()),
        serde_yaml::Value::Bool(b) => YamlScalar::Bool(*b),
        serde_yaml::Value::Number(n) => YamlScalar::Number(n.to_string()),
        _ => YamlScalar::Other,
    })).collect()))
}

/// What `serde_yaml::to_string` writes of a map with the given pairs; nothing
/// where it fails.
pub uninterp spec fn yaml_text(pairs: Seq<(Seq<char>, Seq<char>)>) -> Option<Seq<char>>;

/// `serde_yaml::to_string` of the map that holds the given pairs. The outcome
/// depends on the pairs alone.
#[verifier::external_body]
fn write_yaml(pairs: &Vec<(String, String)>) -> (r: Result<String, serde_yaml::Error>)
    ensures
        match r {
            Ok(text) => yaml_text(pair_views(pairs@)) == Some(text@),
            Err(_) => yaml_text(pair_views(pairs@)) is None,
        },
{
    serde_yaml::to_string(&pairs.iter().cloned().collect::<BTreeMap<String, String>>())
}

/// What `serde_json::from_str` reads of a text as an object of strings, by
/// increasing name; nothing where it fails.
pub uninterp spec fn json_reading(text: Seq<char>) -> Option<Seq<(Seq<char>, Seq<char>)>>;

/// `serde_json::from_str` into a map from string to string. The outcome depends
/// on the text alone.
#[verifier::external_body]
fn read_json(text: &str) -> (r: Result<Vec<(String, String)>, serde_json::Error>)
    ensures
        match r {
            Ok(pairs) => json_reading(text@) == Some(pair_views(pairs@)),
            Err(_) => json_reading(text@) is None,
        },
{
    serde_json::from_str::<BTreeMap<String, String>>(text).map(|m| m.into_iter().collect())
}

/// What `serde_json::to_string` writes of a map with the given pairs.
pub uninterp spec fn json_text(pairs: Seq<(Seq<char>, Seq<char>)>) -> Seq<char>;

/// `serde_json::to_string` of the map that holds the given pairs. It does not
/// fail on a map from string to string, the outcome depends on the pairs alone,
/// and `serde_json::from_str` reads the same map back from the text.
#[verifier::external_body]
fn write_json(pairs: &Vec<(String, String)>) -> (r: Result<String, serde_json::Error>)
    ensures
        r is Ok,
        r->Ok_0@ == json_text(pair_views(pairs@)),
        increasing(pair_views(pairs@)) ==> json_reading(r->Ok_0@) == Some(pair_views(pairs@)),
{
    serde_json::to_string(&pairs.iter().cloned().collect::<BTreeMap<String, String>>())
}

/// Why a YAML text is not a configuration.
pub enum ConfigError {
    /// It is not YAML.
    Unreadable(serde_yaml::Error),
    /// It is not a mapping.
    NotAMapping,
    /// A parameter name is not a string.
    NameNotAString,
    /// The value of the named parameter is not a string, number or boolean.
    ValueNotAScalar(String),
}

/// Why the entries of a YAML mapping are not a configuration.
pub enum EntryFault {
    NameNotAString,
    ValueNotAScalar(Seq<char>),
}

/// The text of a scalar value, if it is one.
pub open spec fn scalar_text(v: ScalarView) -> Option<Seq<char>> {
    match v {
        ScalarView::Text(s) => Some(s),
        ScalarView::Bool(b) => Some(
            if b {
                "true"@
            } else {
                "false"@
            },
        ),
        ScalarView::Number(s) => Some(s),
        ScalarView::Other => None,
    }
}

/// The configuration that the first `n` entries of a YAML mapping make, or the
/// first fault.
pub open spec fn entries_config(
    entries: Seq<(Option<Seq<char>>, ScalarView)>,
    n: nat,
) -> Result<Assignment, EntryFault>
    decreases n,
{
    if n == 0 {
        Ok(Map::empty())
    } else {
        match entries_config(entries, (n - 1) as nat) {
            Err(f) => Err(f),
            Ok(m) => match (entries[n - 1].0, scalar_text(entries[n - 1].1)) {
                (None, _) => Err(EntryFault::NameNotAString),
                (Some(name), None) => Err(EntryFault::ValueNotAScalar(name)),
                (Some(name), Some(value)) => Ok(m.insert(name, value)),
            },
        }
    }
}

proof fn lemma_fault_sticks(entries: Seq<(Option<Seq<char>>, ScalarView)>, m: nat, n: nat)
    requires
        m <= n,
        entries_config(entries, m) is Err,
    ensures
        entries_config(entries, n) == entries_config(entries, m),
    decreases n,
{
    if m < n {
        lemma_fault_sticks(entries, m, (n - 1) as nat);
    }
}

/// The configuration that the entries of a YAML mapping make: strings as they
/// are, numbers and booleans as they are written.
pub fn config_from_yaml_value(entries: &Vec<YamlEntry>) -> (r: Result<Config, ConfigError>)
    ensures
        match (r, entries_config(entry_views(entries@), entries@.len())) {
            (Ok(c), Ok(m)) => c@ == m,
            (Err(ConfigError::NameNotAString), Err(EntryFault::NameNotAString)) => true,
            (Err(ConfigError::ValueNotAScalar(n)), Err(EntryFault::ValueNotAScalar(v))) => n@ == v,
            _ => false,
        },
{
    let mut config = Config::new();
    let ghost views = entry_views(entries@);
    for i in 0..entries.len()
        invariant
            views == entry_views(entries@),
            entries_config(views, i as nat) == Ok::<Assignment, EntryFault>(config@),
    {
        let ghost n = (i + 1) as nat;
        assert(views[i as int] == entry_view(entries@[i as int]));
        let entry = &entries[i];
        let name = match &entry.0 {
            Some(name) => name.clone(),
            None => {
                proof {
                    lemma_fault_sticks(views, n, entries@.len());
                }
                return Err(ConfigError::NameNotAString);
            },
        };
        let value = match &entry.1 {
            YamlScalar::Text(s) => s.clone(),
            YamlScalar::Bool(b) => if *b {
                "true".to_owned()
            } else {
                "false".to_owned()
            },
            YamlScalar::Number(s) => s.clone(),
            YamlScalar::Other => {
                proof {
                    lemma_fault_sticks(views, n, entries@.len());
                }
                return Err(ConfigError::ValueNotAScalar(name));
            },
        };
        config.insert(name, value);
    }
    Ok(config)
}

/// The configuration that a YAML text writes.
pub fn parse_config_yaml(text: &str) -> (r: Result<Config, ConfigError>)
    ensures
        match yaml_reading(text@) {
            None => r matches Err(ConfigError::Unreadable(_)),
            Some(None) => r matches Err(ConfigError::NotAMapping),
            Some(Some(entries)) => match (r, entries_config(entries, entries.len())) {
                (Ok(c), Ok(m)) => c@ == m,
                (Err(ConfigError::NameNotAString), Err(EntryFault::NameNotAString)) => true,
                (Err(ConfigError::ValueNotAScalar(n)), Err(EntryFault::ValueNotAScalar(v))) => n@ == v,
                _ => false,
            },
        },
{
    match read_yaml(text) {
        Err(e) => Err(ConfigError::Unreadable(e)),
        Ok(None) => Err(ConfigError::NotAMapping),
        Ok(Some(entries)) => {
            assert(entry_views(entries@).len() == entries@.len());
            config_from_yaml_value(&entries)
        },
    }
}

/// A configuration as YAML, by increasing name.
pub fn config_to_yaml(config: &Config) -> (r: Result<String, serde_yaml::Error>)
    ensures
        match r {
            Ok(text) => yaml_text(listing(config@)) == Some(text@),
            Err(_) => yaml_text(listing(config@)) is None,
        },
{
    write_yaml(config.pairs())
}

/// A configuration as JSON, by increasing name. [`config_from_json`] reads the
/// same configuration back.
pub fn config_to_json(config: &Config) -> (r: Result<String, serde_json::Error>)
    ensures
        r matches Ok(text) && text@ == json_text(listing(config@)) && json_reading(text@) == Some(
            listing(config@),
        ),
{
    write_json(config.pairs())
}

/// The configuration that a JSON text writes.
pub fn config_from_json(text: &str) -> (r: Result<Config, serde_json::Error>)
    ensures
        match r {
            Ok(c) => json_reading(text@) matches Some(pairs) && c@ == collected(pairs),
            Err(_) => json_reading(text@) is None,
        },
{
    match read_json(text) {
        Ok(pairs) => Ok(Config::from_pairs(&pairs)),
        Err(e) => Err(e),
    }
}

/// What is read of a text that was written for a configuration is that
/// configuration.
pub proof fn lemma_json_reads_back(m: Assignment, text: Seq<char>)
    requires
        m.dom().finite(),
        json_reading(text) == Some(listing(m)),
    ensures
        json_reading(text) matches Some(pairs) && collected(pairs) == m,
{
    crate::config::lemma_listing_collects(m);
}

/// Strings and numbers are taken as they are written, booleans as `true` and
/// `false`; nothing else has a text.
pub proof fn lemma_scalars_are_taken_as_written(v: ScalarView)
    ensures
        match v {
            ScalarView::Text(s) => scalar_text(v) == Some(s),
            ScalarView::Number(s) => scalar_text(v) == Some(s),
            ScalarView::Bool(b) => scalar_text(v) == Some(
                if b {
                    "true"@
                } else {
                    "false"@
                },
            ),
            ScalarView::Other => scalar_text(v) is None,
        },
{
}

/// Every entry of a mapping without fault is in the configuration; of two with one
/// name the later counts.
pub proof fn lemma_entries_are_in_the_config(entries: Seq<(Option<Seq<char>>, ScalarView)>, n: nat, i: int)
    requires
        0 <= i < n <= entries.len(),
        entries_config(entries, n) is Ok,
        forall|j: int| i < j < n ==> (#[trigger] entries[j]).0 != entries[i].0,
    ensures
        entries[i].0 is Some,
        scalar_text(entries[i].1) is Some,
        entries_config(entries, n)->Ok_0.contains_key(entries[i].0->Some_0),
        entries_config(entries, n)->Ok_0[entries[i].0->Some_0] == scalar_text(entries[i].1)->Some_0,
    decreases n,
{
    if i < n - 1 {
        lemma_entries_are_in_the_config(entries, (n - 1) as nat, i);
        assert(entries[n - 1].0 != entries[i].0);
    }
}

/// A configuration has no name but those of the entries.
pub proof fn lemma_config_has_the_names_of_the_entries(
    entries: Seq<(Option<Seq<char>>, ScalarView)>,
    n: nat,
    name: Seq<char>,
)
    requires
        n <= entries.len(),
        entries_config(entries, n) matches Ok(m) && m.contains_key(name),
    ensures
        exists|i: int| 0 <= i < n && (#[trigger] entries[i]).0 == Some(name),
    decreases n,
{
    if n > 0 {
        if entries[n - 1].0 == Some(name) {
            assert(entries[n - 1].0 == Some(name));
        } else {
            lemma_config_has_the_names_of_the_entries(entries, (n - 1) as nat, name);
            let i = choose|i: int| 0 <= i < n - 1 && (#[trigger] entries[i]).0 == Some(name);
            assert(0 <= i < n && entries[i].0 == Some(name));
        }
    }
}

/// A mapping is refused exactly if some entry has a name that is no string or a
/// value that is no scalar, and the first such entry is reported.
pub proof fn lemma_first_faulty_entry_is_reported(entries: Seq<(Option<Seq<char>>, ScalarView)>, n: nat, i: int)
    requires
        0 <= i < n <= entries.len(),
        forall|j: int|
            0 <= j < i ==> (#[trigger] entries[j]).0 is Some && !(entries[j].1 is Other),
    ensures
        entries[i].0 is None ==> entries_config(entries, n) == Err::<Assignment, EntryFault>(
            EntryFault::NameNotAString,
        ),
        entries[i].0 is Some && entries[i].1 is Other ==> entries_config(entries, n) == Err::<
            Assignment,
            EntryFault,
        >(EntryFault::ValueNotAScalar(entries[i].0->Some_0)),
        i == n - 1 && entries[i].0 is Some && !(entries[i].1 is Other) ==> entries_config(entries, n) is Ok,
{
    lemma_entries_without_fault(entries, i as nat);
    if entries[i].0 is None || entries[i].1 is Other {
        lemma_fault_sticks(entries, (i + 1) as nat, n);
    }
}

proof fn lemma_entries_without_fault(entries: Seq<(Option<Seq<char>>, ScalarView)>, n: nat)
    requires
        n <= entries.len(),
        forall|j: int| 0 <= j < n ==> (#[trigger] entries[j]).0 is Some && !(entries[j].1 is Other),
    ensures
        entries_config(entries, n) is Ok,
    decreases n,
{
    if n > 0 {
        lemma_entries_without_fault(entries, (n - 1) as nat);
        assert(entries[n - 1].0 is Some);
    }
}

} // verus!
