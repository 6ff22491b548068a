//! The configuration of the linter.

use crate::hash::{hash_text, is_digest, text_hash};
use crate::error::{ErrorKind, LinterError};
use crate::json::{
    bool_text, distinct_names, find_member, is_strings, json_parse, json_string, json_text, json_tree,
    member_trees, null_value, opt_tree, parsed_json, push_bool, push_quoted, push_string_array,
    read_strings, string_array_text, strings_from, value_bool, value_members, value_str,
    value_text, JsonTree,
};
use crate::order::{
    compare, lemma_sorted_set, lemma_sorted_unique, sort_dedup, sorted_set, text_seq, Order,
};
use crate::table::{
    is_first, lemma_has_first, lemma_lookup_absent, lemma_lookup_first, lookup, no_key_twice,
    pair_lookup, Table,
};
use vstd::prelude::*;
use vstd::string::*;

verus! {

/// Whether caching is on where the configuration does not say.
pub fn default_cache() -> (b: bool)
    ensures
        b,
{
    true
}

/// The cache directory where the configuration names none.
pub fn default_cache_dir() -> (dir: String)
    ensures
        dir@ == ".texide-cache"@,
{
    String::from_str(".texide-cache")
}

/// The configuration of one rule.
#[derive(Clone, Debug)]
pub enum RuleConfig {
    /// The rule is on or off.
    Enabled(bool),
    /// The rule is on at this severity; `off` switches it off.
    Severity(String),
    /// The rule is on, with these options.
    Options(serde_json::Value),
}

impl RuleConfig {
    /// The rule is on.
    pub open spec fn enabled(&self) -> bool {
        match self {
            RuleConfig::Enabled(on) => *on,
            RuleConfig::Severity(level) => level@ != "off"@,
            RuleConfig::Options(_) => true,
        }
    }

    /// Whether the rule is on.
    pub fn is_enabled(&self) -> (b: bool)
        ensures
            b == self.enabled(),
    {
        match self {
            RuleConfig::Enabled(on) => *on,
            RuleConfig::Severity(level) => compare(level.as_str(), "off") != Order::Equal,
            RuleConfig::Options(_) => true,
        }
    }

    /// The JSON text of the rule's options: `null` where it has none.
    pub open spec fn options_text(&self) -> Seq<char> {
        match self {
            RuleConfig::Options(value) => json_text(*value),
            _ => "null"@,
        }
    }

    /// The rule's options as a JSON value.
    pub fn options(&self) -> (value: serde_json::Value)
        ensures
            json_text(value) == self.options_text(),
    {
        match self {
            RuleConfig::Options(value) => value.clone(),
            _ => null_value(),
        }
    }

    /// The JSON text of the rule's configuration.
    pub open spec fn text(&self) -> Seq<char> {
        match self {
            RuleConfig::Enabled(on) => bool_text(*on),
            RuleConfig::Severity(level) => json_string(level@),
            RuleConfig::Options(value) => json_text(*value),
        }
    }

    /// Appends the JSON text of the rule's configuration.
    pub fn push_text(&self, out: &mut String)
        ensures
            final(out)@ == old(out)@ + self.text(),
    {
        match self {
            RuleConfig::Enabled(on) => push_bool(out, *on),
            RuleConfig::Severity(level) => push_quoted(out, level.as_str()),
            RuleConfig::Options(value) => {
                let text = value_text(value);
                out.append(text.as_str());
            },
        }
    }
}

/// The rules that are on among the entries, with their names, in order.
pub open spec fn enabled_of(entries: Seq<(String, RuleConfig)>) -> Seq<(Seq<char>, RuleConfig)>
    decreases entries.len(),
{
    if entries.len() == 0 {
        Seq::empty()
    } else if entries.last().1.enabled() {
        enabled_of(entries.drop_last()).push((entries.last().0@, entries.last().1))
    } else {
        enabled_of(entries.drop_last())
    }
}

/// The enabled rules are exactly the entries whose rule is on: a pair of a
/// name and a rule is among them if and only if an entry holds the rule
/// under the name and the rule is on.
pub proof fn lemma_enabled_exact(entries: Seq<(String, RuleConfig)>)
    ensures
        forall|name: Seq<char>, rule: RuleConfig| #[trigger]
            enabled_of(entries).contains((name, rule)) <==> (rule.enabled() && exists|i: int|
                0 <= i < entries.len() && (#[trigger] entries[i]).0@ == name && entries[i].1
                    == rule),
    decreases entries.len(),
{
    if entries.len() > 0 {
        let front = entries.drop_last();
        let last = entries.last();
        lemma_enabled_exact(front);
        let all = enabled_of(entries);
        let before = enabled_of(front);
        assert forall|name: Seq<char>, rule: RuleConfig| #[trigger]
            all.contains((name, rule)) <==> (rule.enabled() && exists|i: int|
                0 <= i < entries.len() && (#[trigger] entries[i]).0@ == name && entries[i].1
                    == rule) by {
            if all.contains((name, rule)) {
                let k = choose|k: int| 0 <= k < all.len() && all[k] == (name, rule);
                if last.1.enabled() && k == before.len() {
                    assert(entries[entries.len() - 1].0@ == name);
                } else {
                    assert(before[k] == (name, rule));
                    assert(before.contains((name, rule)));
                    let i = choose|i: int|
                        0 <= i < front.len() && (#[trigger] front[i]).0@ == name && front[i].1
                            == rule;
                    assert(entries[i].0@ == name);
                }
            }
            if rule.enabled() && exists|i: int|
                0 <= i < entries.len() && (#[trigger] entries[i]).0@ == name && entries[i].1
                    == rule {
                let i = choose|i: int|
                    0 <= i < entries.len() && (#[trigger] entries[i]).0@ == name && entries[i].1
                        == rule;
                if i < front.len() {
                    assert(front[i].0@ == name);
                    assert(before.contains((name, rule)));
                    let k = choose|k: int| 0 <= k < before.len() && before[k] == (name, rule);
                    assert(all[k] == (name, rule));
                } else {
                    assert(all[all.len() - 1] == (name, rule));
                }
            }
        }
    }
}

/// Where no name stands twice among the entries, none stands twice among
/// the enabled rules, and every enabled rule is listed once.
pub proof fn lemma_enabled_once(entries: Seq<(String, RuleConfig)>)
    requires
        no_key_twice(entries),
    ensures
        forall|i: int, j: int|
            0 <= i < j < enabled_of(entries).len() ==> (#[trigger] enabled_of(entries)[i]).0 != (
            #[trigger] enabled_of(entries)[j]).0,
        forall|k: int|
            0 <= k < enabled_of(entries).len() ==> exists|m: int|
                0 <= m < entries.len() && (#[trigger] entries[m]).0@ == (#[trigger] enabled_of(
                    entries,
                )[k]).0,
    decreases entries.len(),
{
    if entries.len() > 0 {
        let front = entries.drop_last();
        let last = entries.last();
        let all = enabled_of(entries);
        let before = enabled_of(front);
        assert forall|p: int, q: int| 0 <= p < q < front.len() implies (#[trigger] front[p]).0@ != (
        #[trigger] front[q]).0@ by {
            assert(entries[p].0@ != entries[q].0@);
        }
        lemma_enabled_once(front);
        assert forall|k: int| 0 <= k < all.len() implies exists|m: int|
            0 <= m < entries.len() && (#[trigger] entries[m]).0@ == (#[trigger] all[k]).0 by {
            if k < before.len() {
                assert(all[k] == before[k]);
                let m = choose|m: int|
                    0 <= m < front.len() && (#[trigger] front[m]).0@ == (#[trigger] before[k]).0;
                assert(entries[m].0@ == all[k].0);
            } else {
                assert(entries[entries.len() - 1].0@ == all[k].0);
            }
        }
        assert forall|i: int, j: int| 0 <= i < j < all.len() implies (#[trigger] all[i]).0 != (
        #[trigger] all[j]).0 by {
            assert(all[i] == before[i]);
            if j < before.len() {
                assert(all[j] == before[j]);
            } else {
                let m = choose|m: int|
                    0 <= m < front.len() && (#[trigger] front[m]).0@ == (#[trigger] before[i]).0;
                assert(entries[m].0@ != entries[entries.len() - 1].0@);
            }
        }
    }
}

/// The names of the entries, in order.
pub open spec fn rule_names(entries: Seq<(String, RuleConfig)>) -> Seq<Seq<char>> {
    Seq::new(entries.len(), |i: int| entries[i].0@)
}

/// The member of the `rules` object for one name: the name, a colon and
/// the rule's configuration.
pub open spec fn rule_member(entries: Seq<(String, RuleConfig)>, name: Seq<char>) -> Seq<char> {
    json_string(name) + ":"@ + match lookup(entries, name) {
        Some(rule) => rule.text(),
        None => "null"@,
    }
}

/// The members for a list of names, separated by commas.
pub open spec fn rule_members(entries: Seq<(String, RuleConfig)>, names: Seq<Seq<char>>) -> Seq<
    char,
>
    decreases names.len(),
{
    if names.len() == 0 {
        Seq::empty()
    } else if names.len() == 1 {
        rule_member(entries, names[0])
    } else {
        rule_members(entries, names.drop_last()) + ","@ + rule_member(entries, names.last())
    }
}

/// `rule` is the configuration that a JSON value stands for: a boolean
/// switches the rule on or off, a string gives its severity, and any other
/// value is its options.
pub open spec fn rule_from(t: JsonTree, rule: RuleConfig) -> bool {
    match t {
        JsonTree::Bool(on) => rule == RuleConfig::Enabled(on),
        JsonTree::Text(level) => match rule {
            RuleConfig::Severity(text) => text@ == level,
            _ => false,
        },
        _ => match rule {
            RuleConfig::Options(value) => json_tree(value) == t,
            _ => false,
        },
    }
}

/// `entries` are the rules that the member `rules` stands for: none where
/// the member is absent, else one for each member of the object, in order.
pub open spec fn rules_from(field: Option<JsonTree>, entries: Seq<(String, RuleConfig)>) -> bool {
    match field {
        None => entries.len() == 0,
        Some(JsonTree::Object(members)) => {
            &&& entries.len() == members.len()
            &&& forall|i: int|
                0 <= i < members.len() ==> (#[trigger] entries[i]).0@ == members[i].0 && rule_from(
                    members[i].1,
                    entries[i].1,
                )
        },
        Some(_) => false,
    }
}

/// The member is absent or an object.
pub open spec fn is_rules(field: Option<JsonTree>) -> bool {
    match field {
        None => true,
        Some(JsonTree::Object(_)) => true,
        Some(_) => false,
    }
}

/// The member is absent or a boolean.
pub open spec fn is_flag(field: Option<JsonTree>) -> bool {
    match field {
        None => true,
        Some(JsonTree::Bool(_)) => true,
        Some(_) => false,
    }
}

/// The member is absent or a string.
pub open spec fn is_string(field: Option<JsonTree>) -> bool {
    match field {
        None => true,
        Some(JsonTree::Text(_)) => true,
        Some(_) => false,
    }
}

/// What is wrong with a JSON value as a configuration: the first of its
/// members, in the order `rules`, `plugins`, `include`, `exclude`, `cache`,
/// `cache_dir`, that has not the type of its field; `None` where the value
/// is an object and every member that is present has it.  Members of
/// other names are passed over.
pub open spec fn shape_error(tree: JsonTree) -> Option<Seq<char>> {
    match tree {
        JsonTree::Object(members) => {
            if !is_rules(pair_lookup(members, "rules"@)) {
                Some("`rules` is not an object"@)
            } else if !is_strings(pair_lookup(members, "plugins"@)) {
                Some("`plugins` is not a list of strings"@)
            } else if !is_strings(pair_lookup(members, "include"@)) {
                Some("`include` is not a list of strings"@)
            } else if !is_strings(pair_lookup(members, "exclude"@)) {
                Some("`exclude` is not a list of strings"@)
            } else if !is_flag(pair_lookup(members, "cache"@)) {
                Some("`cache` is not a boolean"@)
            } else if !is_string(pair_lookup(members, "cache_dir"@)) {
                Some("`cache_dir` is not a string"@)
            } else {
                None
            }
        },
        _ => Some("the configuration is not an object"@),
    }
}

/// `config` is the configuration that a JSON object stands for.  A field
/// whose member is absent has its default: no rules, empty lists, the
/// cache on, the default cache directory.
pub open spec fn config_from(tree: JsonTree, config: LinterConfig) -> bool {
    match tree {
        JsonTree::Object(members) => {
            &&& rules_from(pair_lookup(members, "rules"@), config.rules.pairs_spec())
            &&& strings_from(pair_lookup(members, "plugins"@), text_seq(config.plugins@))
            &&& strings_from(pair_lookup(members, "include"@), text_seq(config.includes@))
            &&& strings_from(pair_lookup(members, "exclude"@), text_seq(config.exclude@))
            &&& config.cache == match pair_lookup(members, "cache"@) {
                Some(JsonTree::Bool(on)) => on,
                _ => true,
            }
            &&& config.cache_dir@ == match pair_lookup(members, "cache_dir"@) {
                Some(JsonTree::Text(dir)) => dir,
                _ => ".texide-cache"@,
            }
        },
        _ => false,
    }
}

/// `r` is what reading a configuration from a JSON value yields: the
/// configuration that the value stands for, or a configuration error that
/// says what is wrong with the value.
pub open spec fn is_config_of(tree: JsonTree, r: Result<LinterConfig, LinterError>) -> bool {
    match shape_error(tree) {
        None => match r {
            Ok(config) => config_from(tree, config),
            Err(_) => false,
        },
        Some(reason) => match r {
            Ok(_) => false,
            Err(e) => e.kind == ErrorKind::Config && e.message@ == "Invalid config: "@ + reason,
        },
    }
}

/// A name is among the names of the entries exactly when a rule stands
/// under it.
pub proof fn lemma_named(entries: Seq<(String, RuleConfig)>, name: Seq<char>)
    ensures
        rule_names(entries).contains(name) <==> lookup(entries, name) is Some,
{
    let names = rule_names(entries);
    if names.contains(name) {
        let i = choose|i: int| 0 <= i < names.len() && names[i] == name;
        assert(entries[i].0@ == name);
        lemma_has_first(entries, name, i);
        let f = choose|f: int| is_first(entries, name, f);
        lemma_lookup_first(entries, name, f);
    }
    if lookup(entries, name) is Some {
        let f = choose|f: int| is_first(entries, name, f);
        assert(names[f] == name);
    }
}

/// The members for a list of names are the same for two lists of entries
/// that have the same member for each of the names.
pub proof fn lemma_same_members(
    a: Seq<(String, RuleConfig)>,
    b: Seq<(String, RuleConfig)>,
    names: Seq<Seq<char>>,
)
    requires
        forall|i: int|
            0 <= i < names.len() ==> rule_member(a, #[trigger] names[i]) == rule_member(
                b,
                names[i],
            ),
    ensures
        rule_members(a, names) == rule_members(b, names),
    decreases names.len(),
{
    if names.len() > 1 {
        let front = names.drop_last();
        assert forall|i: int| 0 <= i < front.len() implies rule_member(a, #[trigger] front[i])
            == rule_member(b, front[i]) by {
            assert(front[i] == names[i]);
        }
        lemma_same_members(a, b, front);
        assert(names.last() == names[names.len() - 1]);
    } else if names.len() == 1 {
        assert(rule_member(a, names[0]) == rule_member(b, names[0]));
    }
}

/// The configuration of the linter.
#[derive(Debug)]
pub struct LinterConfig {
    /// The configuration of each rule under its name.
    pub rules: Table<RuleConfig>,
    /// Rule modules to load, by path or name.
    pub plugins: Vec<String>,
    /// Globs of the files to lint; every file where empty.
    pub includes: Vec<String>,
    /// Globs of the files to leave out.
    pub exclude: Vec<String>,
    /// Whether results are cached.
    pub cache: bool,
    /// The directory of the cache.
    pub cache_dir: String,
}

impl LinterConfig {
    /// A configuration without rules, plugins or globs, with the cache on
    /// in its default directory.
    pub fn new() -> (config: LinterConfig)
        ensures
            config.rules.pairs_spec().len() == 0,
            config.plugins@.len() == 0,
            config.includes@.len() == 0,
            config.exclude@.len() == 0,
            config.cache,
            config.cache_dir@ == ".texide-cache"@,
    {
        LinterConfig {
            rules: Table::new(),
            plugins: Vec::new(),
            includes: Vec::new(),
            exclude: Vec::new(),
            cache: default_cache(),
            cache_dir: default_cache_dir(),
        }
    }

    /// The configuration of one rule from its JSON value.
    pub fn read_rule(value: &serde_json::Value) -> (rule: RuleConfig)
        ensures
            rule_from(json_tree(*value), rule),
    {
        match value_bool(value) {
            Some(on) => RuleConfig::Enabled(on),
            None => match value_str(value) {
                Some(level) => RuleConfig::Severity(String::from_str(level)),
                None => RuleConfig::Options(value.clone()),
            },
        }
    }

    /// The rules of the member `rules`; `None` where the member is no
    /// object.
    pub fn read_rules(field: Option<&serde_json::Value>) -> (r: Option<Table<RuleConfig>>)
        ensures
            match r {
                Some(rules) => rules_from(opt_tree(field), rules.pairs_spec()),
                None => !is_rules(opt_tree(field)),
            },
    {
        let mut rules: Table<RuleConfig> = Table::new();
        match field {
            None => Some(rules),
            Some(value) => match value_members(value) {
                None => None,
                Some(members) => {
                    let ghost trees = member_trees(members@);
                    let mut i: usize = 0;
                    while i < members.len()
                        invariant
                            i <= members.len(),
                            trees == member_trees(members@),
                            distinct_names(trees),
                            opt_tree(field) == Some(JsonTree::Object(trees)),
                            rules.pairs_spec().len() == i,
                            forall|j: int|
                                0 <= j < i ==> (#[trigger] rules.pairs_spec()[j]).0@ == trees[j].0
                                    && rule_from(trees[j].1, rules.pairs_spec()[j].1),
                        decreases members.len() - i,
                    {
                        let rule = Self::read_rule(members[i].1);
                        let name = members[i].0.clone();
                        proof {
                            assert(trees[i as int] == (members@[i as int].0@, json_tree(
                                *members@[i as int].1,
                            )));
                            assert forall|j: int| 0 <= j < rules.pairs_spec().len() implies (
                            #[trigger] rules.pairs_spec()[j]).0@ != name@ by {
                                assert(trees[j].0 != trees[i as int].0);
                            }
                            lemma_lookup_absent(rules.pairs_spec(), name@);
                        }
                        rules.insert(name, rule);
                        i += 1;
                    }
                    Some(rules)
                },
            },
        }
    }

    /// A configuration error for a value that is no configuration.
    pub fn shape_failure(reason: &str) -> (e: LinterError)
        ensures
            e.kind == ErrorKind::Config,
            e.message@ == "Invalid config: "@ + reason@,
    {
        LinterError::config(String::from_str("Invalid config: ").concat(reason))
    }

    /// Reads a configuration from a JSON value.
    pub fn from_value(value: &serde_json::Value) -> (r: Result<LinterConfig, LinterError>)
        ensures
            is_config_of(json_tree(*value), r),
    {
        let members = match value_members(value) {
            Some(members) => members,
            None => {
                return Err(Self::shape_failure("the configuration is not an object"));
            },
        };
        let rules = match Self::read_rules(find_member(&members, "rules")) {
            Some(rules) => rules,
            None => {
                return Err(Self::shape_failure("`rules` is not an object"));
            },
        };
        let plugins = match read_strings(find_member(&members, "plugins")) {
            Some(list) => list,
            None => {
                return Err(Self::shape_failure("`plugins` is not a list of strings"));
            },
        };
        let includes = match read_strings(find_member(&members, "include")) {
            Some(list) => list,
            None => {
                return Err(Self::shape_failure("`include` is not a list of strings"));
            },
        };
        let exclude = match read_strings(find_member(&members, "exclude")) {
            Some(list) => list,
            None => {
                return Err(Self::shape_failure("`exclude` is not a list of strings"));
            },
        };
        let cache = match find_member(&members, "cache") {
            None => default_cache(),
            Some(flag) => match value_bool(flag) {
                Some(on) => on,
                None => {
                    return Err(Self::shape_failure("`cache` is not a boolean"));
                },
            },
        };
        let cache_dir = match find_member(&members, "cache_dir") {
            None => default_cache_dir(),
            Some(dir) => match value_str(dir) {
                Some(text) => String::from_str(text),
                None => {
                    return Err(Self::shape_failure("`cache_dir` is not a string"));
                },
            },
        };
        Ok(LinterConfig { rules, plugins, includes, exclude, cache, cache_dir })
    }

    /// Reads a configuration from JSON text.  Text that is no JSON is
    /// refused with the reader's message; a value that is no configuration
    /// is refused with what is wrong with it.
    pub fn from_json(json: &str) -> (r: Result<LinterConfig, LinterError>)
        ensures
            match parsed_json(json@) {
                Ok(tree) => is_config_of(tree, r),
                Err(message) => match r {
                    Ok(_) => false,
                    Err(e) => e.kind == ErrorKind::Config && e.message@ == "Invalid config: "@
                        + message,
                },
            },
    {
        match json_parse(json) {
            Ok(value) => Self::from_value(&value),
            Err(message) => Err(Self::shape_failure(message.as_str())),
        }
    }

    /// The rules that are on, each with its name, in the order of the
    /// configuration.  No name is listed twice.
    pub fn enabled_rules(&self) -> (list: Vec<(&str, &RuleConfig)>)
        ensures
            Seq::new(list@.len(), |i: int| (list@[i].0@, *list@[i].1)) == enabled_of(
                self.rules.pairs_spec(),
            ),
            forall|i: int, j: int|
                0 <= i < j < list@.len() ==> (#[trigger] list@[i]).0@ != (#[trigger] list@[j]).0@,
    {
        let mut list: Vec<(&str, &RuleConfig)> = Vec::new();
        let mut i: usize = 0;
        let ghost entries = self.rules.pairs_spec();
        let pairs = self.rules.pairs();
        proof {
            lemma_enabled_once(entries);
        }
        assert(entries.take(0) =~= Seq::empty());
        assert(Seq::new(list@.len(), |k: int| (list@[k].0@, *list@[k].1)) =~= enabled_of(
            entries.take(0),
        ));
        while i < self.rules.len()
            invariant
                i <= self.rules.pairs_spec().len(),
                entries == self.rules.pairs_spec(),
                Seq::new(list@.len(), |k: int| (list@[k].0@, *list@[k].1)) == enabled_of(
                    entries.take(i as int),
                ),
            decreases self.rules.pairs_spec().len() - i,
        {
            let ghost before = Seq::new(list@.len(), |k: int| (list@[k].0@, *list@[k].1));
            proof {
                let next = entries.take(i + 1);
                assert(next.drop_last() =~= entries.take(i as int));
                assert(next.last() == entries[i as int]);
            }
            let entry = &self.rules.pairs()[i];
            if entry.1.is_enabled() {
                list.push((entry.0.as_str(), &entry.1));
                assert(Seq::new(list@.len(), |k: int| (list@[k].0@, *list@[k].1)) =~= before.push(
                    (entries[i as int].0@, entries[i as int].1),
                ));
            }
            i += 1;
        }
        assert(entries.take(i as int) =~= entries);
        proof {
            let listed = Seq::new(list@.len(), |k: int| (list@[k].0@, *list@[k].1));
            assert forall|p: int, q: int| 0 <= p < q < list@.len() implies (#[trigger] list@[p]).0@
                != (#[trigger] list@[q]).0@ by {
                assert(listed[p].0 == list@[p].0@);
                assert(listed[q].0 == list@[q].0@);
                assert(enabled_of(entries)[p].0 != enabled_of(entries)[q].0);
            }
        }
        list
    }

    /// The canonical text of the configuration: a JSON object with the
    /// fields in a fixed order and the rules in the order of their names.
    pub open spec fn canonical_text(&self) -> Seq<char> {
        "{\"rules\":{"@ + rule_members(
            self.rules.pairs_spec(),
            sorted_set(rule_names(self.rules.pairs_spec())),
        ) + "},\"plugins\":"@ + string_array_text(text_seq(self.plugins@)) + ",\"include\":"@
            + string_array_text(text_seq(self.includes@)) + ",\"exclude\":"@ + string_array_text(
            text_seq(self.exclude@),
        ) + ",\"cache\":"@ + bool_text(self.cache) + ",\"cache_dir\":"@ + json_string(
            self.cache_dir@,
        ) + "}"@
    }

    /// The canonical text, and with it the hash, does not depend on the
    /// order in which the rules were configured: two configurations that
    /// have rules under the same names, the same text for the rule under
    /// each name, and the same other fields have the same canonical text.
    pub proof fn lemma_canonical_text_is_order_free(&self, other: &LinterConfig)
        requires
            forall|name: Seq<char>|
                lookup(self.rules.pairs_spec(), name) is Some <==> lookup(other.rules.pairs_spec(), name)
                    is Some,
            forall|name: Seq<char>|
                rule_member(self.rules.pairs_spec(), name) == rule_member(other.rules.pairs_spec(), name),
            text_seq(self.plugins@) == text_seq(other.plugins@),
            text_seq(self.includes@) == text_seq(other.includes@),
            text_seq(self.exclude@) == text_seq(other.exclude@),
            self.cache == other.cache,
            self.cache_dir@ == other.cache_dir@,
        ensures
            self.canonical_text() == other.canonical_text(),
            self.hash_spec() == other.hash_spec(),
    {
        let a = self.rules.pairs_spec();
        let b = other.rules.pairs_spec();
        let names_a = sorted_set(rule_names(a));
        let names_b = sorted_set(rule_names(b));
        lemma_sorted_set(rule_names(a));
        lemma_sorted_set(rule_names(b));
        assert forall|t: Seq<char>| names_a.contains(t) <==> names_b.contains(t) by {
            lemma_named(a, t);
            lemma_named(b, t);
        }
        lemma_sorted_unique(names_a, names_b);
        lemma_same_members(a, b, names_a);
    }

    /// The names of the configured rules.
    pub fn rule_name_list(&self) -> (names: Vec<String>)
        ensures
            text_seq(names@) == rule_names(self.rules.pairs_spec()),
    {
        let mut names: Vec<String> = Vec::new();
        let mut i: usize = 0;
        while i < self.rules.len()
            invariant
                i <= self.rules.pairs_spec().len(),
                names@.len() == i,
                forall|j: int| 0 <= j < i ==> (#[trigger] names@[j])@ == self.rules.pairs_spec()[j].0@,
            decreases self.rules.pairs_spec().len() - i,
        {
            names.push(self.rules.pairs()[i].0.clone());
            i += 1;
        }
        assert(text_seq(names@) =~= rule_names(self.rules.pairs_spec()));
        names
    }

    /// Writes the canonical text of the configuration.
    pub fn to_canonical_text(&self) -> (text: String)
        ensures
            text@ == self.canonical_text(),
    {
        let names = sort_dedup(&self.rule_name_list());
        let ghost sorted = text_seq(names@);
        let ghost entries = self.rules.pairs_spec();
        let mut out = String::from_str("{\"rules\":{");
        let mut i: usize = 0;
        assert(sorted.take(0) =~= Seq::empty());
        assert(out@ =~= "{\"rules\":{"@ + rule_members(entries, sorted.take(0)));
        while i < names.len()
            invariant
                i <= names.len(),
                sorted == text_seq(names@),
                entries == self.rules.pairs_spec(),
                out@ == "{\"rules\":{"@ + rule_members(entries, sorted.take(i as int)),
            decreases names.len() - i,
        {
            let ghost so_far = out@;
            if i > 0 {
                out.append(",");
            }
            let name = names[i].as_str();
            push_quoted(&mut out, name);
            out.append(":");
            match self.rules.get(name) {
                Some(rule) => rule.push_text(&mut out),
                None => out.append("null"),
            }
            proof {
                let next = sorted.take(i + 1);
                assert(next.drop_last() =~= sorted.take(i as int));
                assert(next.last() == names@[i as int]@);
                if i == 0 {
                    assert(rule_members(entries, next) == rule_member(entries, next[0]));
                    assert(rule_members(entries, sorted.take(0)) =~= Seq::empty());
                }
                assert(out@ =~= "{\"rules\":{"@ + rule_members(entries, next));
            }
            i += 1;
        }
        assert(sorted.take(i as int) =~= sorted);
        out.append("},\"plugins\":");
        push_string_array(&mut out, &self.plugins);
        out.append(",\"include\":");
        push_string_array(&mut out, &self.includes);
        out.append(",\"exclude\":");
        push_string_array(&mut out, &self.exclude);
        out.append(",\"cache\":");
        push_bool(&mut out, self.cache);
        out.append(",\"cache_dir\":");
        push_quoted(&mut out, self.cache_dir.as_str());
        out.append("}");
        assert(out@ =~= self.canonical_text());
        out
    }

    /// The hash of the configuration: that of its canonical text.
    pub open spec fn hash_spec(&self) -> Seq<char> {
        text_hash(self.canonical_text())
    }

    /// The hash of the configuration, by which cached results are told
    /// from those made under another configuration.
    pub fn hash(&self) -> (h: String)
        ensures
            h@ == self.hash_spec(),
            is_digest(h@),
    {
        let text = self.to_canonical_text();
        hash_text(text.as_str())
    }
}

impl Default for LinterConfig {
    fn default() -> (config: LinterConfig)
        ensures
            config.rules.pairs_spec().len() == 0,
            config.plugins@.len() == 0,
            config.includes@.len() == 0,
            config.exclude@.len() == 0,
            config.cache,
            config.cache_dir@ == ".texide-cache"@,
    {
        LinterConfig::new()
    }
}

} // verus!
