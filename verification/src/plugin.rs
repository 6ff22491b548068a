//! The rule registry and the gathering of what the rules found.
//!
//! Rules are separate sandboxed modules.  Running one is not the registry's
//! work: the registry says which rules are loaded and in what order, and it
//! turns the outcomes of their runs, in that order, into one list of
//! findings.

use crate::ast::Span;
use crate::diagnostic::{append_copies, views, Diagnostic, DiagnosticView, Severity};
use crate::error::{ErrorKind, LinterError};
use crate::json::{
    find_member, is_strings, json_parse, json_tree, json_trees, opt_tree, parsed_json, read_strings,
    read_text, strings_from, text_of, value_items, value_members, value_str, value_u64, JsonTree,
};
use crate::order::{compare, text_seq, Order};
use crate::table::{is_absent, pair_lookup, pair_texts, Table};
use vstd::prelude::*;
use vstd::string::*;

verus! {

/// What a rule says of itself.
#[derive(Clone, Debug)]
pub struct RuleManifest {
    pub name: String,
    pub version: String,
    /// The constructs that the rule looks at; all of them where `None`.
    pub supported_node_types: Option<Vec<String>>,
    pub description: Option<String>,
}

impl RuleManifest {
    /// A manifest with a name and a version and nothing else.
    pub fn new(name: &str, version: &str) -> (m: RuleManifest)
        ensures
            m.name@ == name@,
            m.version@ == version@,
            m.supported_node_types is None,
            m.description is None,
    {
        RuleManifest {
            name: String::from_str(name),
            version: String::from_str(version),
            supported_node_types: None,
            description: None,
        }
    }

    /// A manifest is valid when it names the rule and its version.
    pub open spec fn valid(&self) -> bool {
        self.name@.len() > 0 && self.version@.len() > 0
    }

    pub fn is_valid(&self) -> (b: bool)
        ensures
            b == self.valid(),
    {
        !self.name.as_str().is_empty() && !self.version.as_str().is_empty()
    }

    /// A plugin error for a value that is no manifest.
    pub fn bad_manifest(reason: &str) -> (e: LinterError)
        ensures
            e.kind == ErrorKind::Plugin,
            e.message@ == "Invalid manifest: "@ + reason@,
    {
        LinterError::plugin(String::from_str("Invalid manifest: ").concat(reason))
    }

    /// Reads a manifest from a JSON value.
    pub fn from_value(value: &serde_json::Value) -> (r: Result<RuleManifest, LinterError>)
        ensures
            is_manifest_of(json_tree(*value), r),
    {
        let members = match value_members(value) {
            Some(members) => members,
            None => {
                return Err(Self::bad_manifest("the manifest is not an object"));
            },
        };
        let name = match read_text(find_member(&members, "name")) {
            Some(name) => name,
            None => {
                return Err(Self::bad_manifest("`name` is not a name"));
            },
        };
        if name.as_str().is_empty() {
            return Err(Self::bad_manifest("`name` is not a name"));
        }
        let version = match read_text(find_member(&members, "version")) {
            Some(version) => version,
            None => {
                return Err(Self::bad_manifest("`version` is not a version"));
            },
        };
        if version.as_str().is_empty() {
            return Err(Self::bad_manifest("`version` is not a version"));
        }
        let types = find_member(&members, "supported_node_types");
        let supported_node_types = match read_strings(types) {
            Some(list) => match types {
                Some(_) => Some(list),
                None => None,
            },
            None => {
                return Err(Self::bad_manifest("`supported_node_types` is not a list of strings"));
            },
        };
        let description = match find_member(&members, "description") {
            None => None,
            Some(text) => match read_text(Some(text)) {
                Some(description) => Some(description),
                None => {
                    return Err(Self::bad_manifest("`description` is not a string"));
                },
            },
        };
        Ok(RuleManifest { name, version, supported_node_types, description })
    }

    /// Reads a manifest from JSON text.  Text that is no JSON is refused
    /// with the reader's message; a value that is no manifest is refused
    /// with what is wrong with it.
    pub fn from_json(json: &str) -> (r: Result<RuleManifest, LinterError>)
        ensures
            match parsed_json(json@) {
                Ok(tree) => is_manifest_of(tree, r),
                Err(message) => match r {
                    Ok(_) => false,
                    Err(e) => e.kind == ErrorKind::Plugin && e.message@ == "Invalid manifest: "@
                        + message,
                },
            },
    {
        match json_parse(json) {
            Ok(value) => Self::from_value(&value),
            Err(message) => Err(Self::bad_manifest(message.as_str())),
        }
    }
}

/// The member is a string that is not empty.
pub open spec fn is_name(field: Option<JsonTree>) -> bool {
    match field {
        Some(JsonTree::Text(text)) => text.len() > 0,
        _ => false,
    }
}

/// What is wrong with a JSON value as a manifest: the first of its members,
/// in the order `name`, `version`, `supported_node_types`, `description`,
/// that is not as it must be; `None` where the value is an object with a
/// name and a version that are strings and not empty, and its other two
/// members, where it has them, are a list of strings and a string.
pub open spec fn manifest_error(tree: JsonTree) -> Option<Seq<char>> {
    match tree {
        JsonTree::Object(members) => {
            if !is_name(pair_lookup(members, "name"@)) {
                Some("`name` is not a name"@)
            } else if !is_name(pair_lookup(members, "version"@)) {
                Some("`version` is not a version"@)
            } else if !is_strings(pair_lookup(members, "supported_node_types"@)) {
                Some("`supported_node_types` is not a list of strings"@)
            } else if !(pair_lookup(members, "description"@) is None || text_of(
                pair_lookup(members, "description"@),
            ) is Some) {
                Some("`description` is not a string"@)
            } else {
                None
            }
        },
        _ => Some("the manifest is not an object"@),
    }
}

/// `manifest` is the manifest that a JSON object stands for.
pub open spec fn manifest_from(tree: JsonTree, manifest: RuleManifest) -> bool {
    match tree {
        JsonTree::Object(members) => {
            &&& Some(manifest.name@) == text_of(pair_lookup(members, "name"@))
            &&& Some(manifest.version@) == text_of(pair_lookup(members, "version"@))
            &&& match manifest.supported_node_types {
                Some(list) => pair_lookup(members, "supported_node_types"@) is Some
                    && strings_from(pair_lookup(members, "supported_node_types"@), text_seq(list@)),
                None => pair_lookup(members, "supported_node_types"@) is None,
            }
            &&& crate::table::opt_text(manifest.description) == text_of(
                pair_lookup(members, "description"@),
            )
            &&& manifest.valid()
        },
        _ => false,
    }
}

/// `r` is what reading a manifest from a JSON value yields: the manifest
/// that the value stands for, or a plugin error that says what is wrong
/// with the value.
pub open spec fn is_manifest_of(tree: JsonTree, r: Result<RuleManifest, LinterError>) -> bool {
    match manifest_error(tree) {
        None => match r {
            Ok(manifest) => manifest_from(tree, manifest),
            Err(_) => false,
        },
        Some(reason) => match r {
            Ok(_) => false,
            Err(e) => e.kind == ErrorKind::Plugin && e.message@ == "Invalid manifest: "@ + reason,
        },
    }
}

/// How the run of one rule on one file ended.
#[derive(Debug)]
pub enum RuleOutcome {
    /// The rule returned its findings.
    Completed(Vec<Diagnostic>),
    /// The rule panicked, trapped or ran out of time; the text says how.
    Crashed(String),
}

/// The span of the member `range`: a list of two natural numbers that fit
/// 32 bits, the start before the end in the list.  `None` for anything
/// else.
pub open spec fn range_of(field: Option<JsonTree>) -> Option<Span> {
    match field {
        Some(JsonTree::Array(items)) => if items.len() == 2 {
            match (items[0], items[1]) {
                (JsonTree::Number(Some(start)), JsonTree::Number(Some(end))) => if start
                    <= u32::MAX && end <= u32::MAX {
                    Some(Span { start: start as u32, end: end as u32 })
                } else {
                    None
                },
                _ => None,
            }
        } else {
            None
        },
        _ => None,
    }
}

/// The severity of the member `severity`: none where the member is absent
/// or `null`, else the severity that the string names.  `None` for
/// anything else.
pub open spec fn severity_of(field: Option<JsonTree>) -> Option<Option<Severity>> {
    match field {
        None => Some(None),
        Some(JsonTree::Null) => Some(None),
        Some(JsonTree::Text(name)) => if name == "error"@ {
            Some(Some(Severity::Error))
        } else if name == "warning"@ {
            Some(Some(Severity::Warning))
        } else if name == "info"@ {
            Some(Some(Severity::Info))
        } else {
            None
        },
        Some(_) => None,
    }
}

/// The finding that a JSON value stands for: an object with the strings
/// `rule` and `message`, the list `range` and, if it has one, the member
/// `severity`.  `None` for anything else.
pub open spec fn finding_of(tree: JsonTree) -> Option<DiagnosticView> {
    match tree {
        JsonTree::Object(members) => match (
            text_of(pair_lookup(members, "rule"@)),
            text_of(pair_lookup(members, "message"@)),
            range_of(pair_lookup(members, "range"@)),
            severity_of(pair_lookup(members, "severity"@)),
        ) {
            (Some(rule_id), Some(message), Some(span), Some(severity)) => Some(
                DiagnosticView { rule_id, message, span, severity },
            ),
            _ => None,
        },
        _ => None,
    }
}

/// Every value of the sequence stands for a finding.
pub open spec fn all_findings(items: Seq<JsonTree>) -> bool {
    forall|i: int| 0 <= i < items.len() ==> finding_of(#[trigger] items[i]) is Some
}

/// The findings that a JSON value stands for: those of the items of a
/// list, in order.  `None` where the value is no list or an item is no
/// finding.
pub open spec fn findings_of(tree: JsonTree) -> Option<Seq<DiagnosticView>> {
    match tree {
        JsonTree::Array(items) => if all_findings(items) {
            Some(Seq::new(items.len(), |i: int| finding_of(items[i])->Some_0))
        } else {
            None
        },
        _ => None,
    }
}

/// `outcome` is what the answer of a rule comes to, where `answer` is what
/// the reader of JSON made of it: the findings that the answer lists, or a
/// crash that says why the answer cannot be read.
pub open spec fn is_answer(answer: Result<JsonTree, Seq<char>>, outcome: RuleOutcome) -> bool {
    match answer {
        Err(message) => match outcome {
            RuleOutcome::Crashed(detail) => detail@ == "unreadable answer: "@ + message,
            _ => false,
        },
        Ok(tree) => match findings_of(tree) {
            Some(found) => match outcome {
                RuleOutcome::Completed(list) => views(list@) == found,
                _ => false,
            },
            None => match outcome {
                RuleOutcome::Crashed(detail) => detail@
                    == "unreadable answer: not a list of findings"@,
                _ => false,
            },
        },
    }
}

impl RuleOutcome {
    /// The span of the member `range`.
    pub fn read_range(field: Option<&serde_json::Value>) -> (r: Option<Span>)
        ensures
            r == range_of(opt_tree(field)),
    {
        match field {
            Some(value) => match value_items(value) {
                Some(items) => {
                    if items.len() != 2 {
                        return None;
                    }
                    assert(json_trees(items@)[0] == json_tree(items@[0]));
                    assert(json_trees(items@)[1] == json_tree(items@[1]));
                    match (value_u64(&items[0]), value_u64(&items[1])) {
                        (Some(start), Some(end)) => {
                            if start <= 0xFFFF_FFFF && end <= 0xFFFF_FFFF {
                                Some(Span::new(start as u32, end as u32))
                            } else {
                                None
                            }
                        },
                        _ => None,
                    }
                },
                None => None,
            },
            None => None,
        }
    }

    /// The severity of the member `severity`.
    pub fn read_severity(field: Option<&serde_json::Value>) -> (r: Option<Option<Severity>>)
        ensures
            r == severity_of(opt_tree(field)),
    {
        match field {
            None => Some(None),
            Some(value) => match value_str(value) {
                Some(name) => {
                    if compare(name, "error") == Order::Equal {
                        Some(Some(Severity::Error))
                    } else if compare(name, "warning") == Order::Equal {
                        Some(Some(Severity::Warning))
                    } else if compare(name, "info") == Order::Equal {
                        Some(Some(Severity::Info))
                    } else {
                        None
                    }
                },
                None => {
                    if crate::json::value_is_null(value) {
                        Some(None)
                    } else {
                        None
                    }
                },
            },
        }
    }

    /// The finding that a JSON value stands for.
    pub fn read_finding(value: &serde_json::Value) -> (r: Option<Diagnostic>)
        ensures
            match r {
                Some(d) => finding_of(json_tree(*value)) == Some(d@),
                None => finding_of(json_tree(*value)) is None,
            },
    {
        let members = match value_members(value) {
            Some(members) => members,
            None => {
                return None;
            },
        };
        let rule_id = read_text(find_member(&members, "rule"));
        let message = read_text(find_member(&members, "message"));
        let span = Self::read_range(find_member(&members, "range"));
        let severity = Self::read_severity(find_member(&members, "severity"));
        match (rule_id, message, span, severity) {
            (Some(rule_id), Some(message), Some(span), Some(severity)) => Some(
                Diagnostic { rule_id, message, span, severity },
            ),
            _ => None,
        }
    }

    /// The findings that a JSON value stands for.
    pub fn read_findings(value: &serde_json::Value) -> (r: Option<Vec<Diagnostic>>)
        ensures
            match r {
                Some(list) => findings_of(json_tree(*value)) == Some(views(list@)),
                None => findings_of(json_tree(*value)) is None,
            },
    {
        let items = match value_items(value) {
            Some(items) => items,
            None => {
                return None;
            },
        };
        let ghost trees = json_trees(items@);
        let mut list: Vec<Diagnostic> = Vec::new();
        let mut i: usize = 0;
        while i < items.len()
            invariant
                i <= items.len(),
                trees == json_trees(items@),
                json_tree(*value) == JsonTree::Array(trees),
                list@.len() == i,
                forall|j: int| 0 <= j < i ==> finding_of(#[trigger] trees[j]) == Some(list@[j]@),
            decreases items.len() - i,
        {
            assert(trees[i as int] == json_tree(items@[i as int]));
            match Self::read_finding(&items[i]) {
                Some(found) => list.push(found),
                None => {
                    assert(!all_findings(trees));
                    return None;
                },
            }
            i += 1;
        }
        assert(all_findings(trees));
        assert(views(list@) =~= Seq::new(trees.len(), |k: int| finding_of(trees[k])->Some_0));
        Some(list)
    }

    /// What the answer of a rule comes to: its findings, or a crash where
    /// the answer cannot be read.
    pub fn from_answer(answer: &str) -> (outcome: RuleOutcome)
        ensures
            is_answer(parsed_json(answer@), outcome),
    {
        match json_parse(answer) {
            Ok(value) => match Self::read_findings(&value) {
                Some(list) => RuleOutcome::Completed(list),
                None => RuleOutcome::Crashed(
                    String::from_str("unreadable answer: not a list of findings"),
                ),
            },
            Err(message) => RuleOutcome::Crashed(
                String::from_str("unreadable answer: ").concat(message.as_str()),
            ),
        }
    }
}

/// The finding that stands for a crashed rule.
pub open spec fn crash_view(rule: Seq<char>, detail: Seq<char>) -> DiagnosticView {
    DiagnosticView {
        rule_id: rule,
        message: "rule crashed: "@ + detail,
        span: Span { start: 0, end: 0 },
        severity: Some(Severity::Error),
    }
}

/// The findings that one outcome adds: those of the rule, or the one that
/// stands for its crash.
pub open spec fn outcome_views(rule: Seq<char>, outcome: RuleOutcome) -> Seq<DiagnosticView> {
    match outcome {
        RuleOutcome::Completed(found) => views(found@),
        RuleOutcome::Crashed(detail) => seq![crash_view(rule, detail@)],
    }
}

/// The findings of the first `n` rules, rule after rule.
pub open spec fn gathered(rules: Seq<Seq<char>>, outcomes: Seq<RuleOutcome>, n: int) -> Seq<
    DiagnosticView,
>
    decreases n,
{
    if n <= 0 {
        Seq::empty()
    } else {
        gathered(rules, outcomes, n - 1) + outcome_views(rules[n - 1], outcomes[n - 1])
    }
}

/// The findings of the first `n` rules begin with those of the first `m`.
pub proof fn lemma_gathered_prefix(
    rules: Seq<Seq<char>>,
    outcomes: Seq<RuleOutcome>,
    m: int,
    n: int,
)
    requires
        0 <= m <= n,
    ensures
        gathered(rules, outcomes, m).len() <= gathered(rules, outcomes, n).len(),
        gathered(rules, outcomes, n).take(gathered(rules, outcomes, m).len() as int) == gathered(
            rules,
            outcomes,
            m,
        ),
    decreases n - m,
{
    let short = gathered(rules, outcomes, m);
    if m == n {
        assert(short.take(short.len() as int) =~= short);
    } else {
        lemma_gathered_prefix(rules, outcomes, m, n - 1);
        let mid = gathered(rules, outcomes, n - 1);
        let long = gathered(rules, outcomes, n);
        assert(long == mid + outcome_views(rules[n - 1], outcomes[n - 1]));
        assert(long.take(short.len() as int) =~= mid.take(short.len() as int));
    }
}

/// Findings stand in load order: where rule `i` is loaded before rule `j`,
/// every finding of rule `i` stands before every finding of rule `j` in the
/// gathered list, and the findings of one rule keep their order.
pub proof fn lemma_rule_order(
    rules: Seq<Seq<char>>,
    outcomes: Seq<RuleOutcome>,
    n: int,
    i: int,
    j: int,
    a: int,
    b: int,
)
    requires
        0 <= i < j < n,
        0 <= a < outcome_views(rules[i], outcomes[i]).len(),
        0 <= b < outcome_views(rules[j], outcomes[j]).len(),
    ensures
        ({
            let all = gathered(rules, outcomes, n);
            let at_a = gathered(rules, outcomes, i).len() + a;
            let at_b = gathered(rules, outcomes, j).len() + b;
            &&& at_a < at_b < all.len()
            &&& all[at_a] == outcome_views(rules[i], outcomes[i])[a]
            &&& all[at_b] == outcome_views(rules[j], outcomes[j])[b]
        }),
{
    let all = gathered(rules, outcomes, n);
    let upto_i = gathered(rules, outcomes, i);
    let with_i = gathered(rules, outcomes, i + 1);
    let upto_j = gathered(rules, outcomes, j);
    let with_j = gathered(rules, outcomes, j + 1);
    assert(with_i == upto_i + outcome_views(rules[i], outcomes[i]));
    assert(with_j == upto_j + outcome_views(rules[j], outcomes[j]));
    lemma_gathered_prefix(rules, outcomes, i + 1, j);
    lemma_gathered_prefix(rules, outcomes, i + 1, n);
    lemma_gathered_prefix(rules, outcomes, j + 1, n);
    let at_a = upto_i.len() + a;
    let at_b = upto_j.len() + b;
    assert(all.take(with_i.len() as int)[at_a] == with_i[at_a]);
    assert(all.take(with_j.len() as int)[at_b] == with_j[at_b]);
}

/// The names of the entries of a registry, in order.
pub open spec fn names_of(entries: Seq<(String, RuleManifest)>) -> Seq<Seq<char>> {
    Seq::new(entries.len(), |i: int| entries[i].0@)
}

/// The versions of the entries of a registry under their names, in order.
pub open spec fn versions_of(entries: Seq<(String, RuleManifest)>) -> Seq<(Seq<char>, Seq<char>)> {
    Seq::new(entries.len(), |i: int| (entries[i].0@, entries[i].1.version@))
}

/// The registry of loaded rules, in load order.
#[derive(Debug)]
pub struct PluginHost {
    /// The manifests under the rules' names.
    pub rules: Table<RuleManifest>,
}

impl PluginHost {
    /// A registry without rules.
    pub fn new() -> (host: PluginHost)
        ensures
            host.rules.pairs_spec().len() == 0,
    {
        PluginHost { rules: Table::new() }
    }

    /// The names of the loaded rules, in load order.
    pub open spec fn rule_names(&self) -> Seq<Seq<char>> {
        names_of(self.rules.pairs_spec())
    }

    /// Registers a rule under the name of its manifest.  An invalid
    /// manifest and a name that is taken are refused, and the registry
    /// stays as it is; else the rule goes to the end of the load order.
    pub fn register(&mut self, manifest: RuleManifest) -> (r: Result<(), LinterError>)
        ensures
            match r {
                Ok(_) => {
                    &&& manifest.valid()
                    &&& is_absent(old(self).rules.pairs_spec(), manifest.name@)
                    &&& final(self).rules.pairs_spec() == old(self).rules.pairs_spec().push(
                        (manifest.name, manifest),
                    )
                },
                Err(e) => {
                    &&& e.kind == ErrorKind::Plugin
                    &&& !manifest.valid() || old(self).rules.get_spec(manifest.name@) is Some
                    &&& final(self).rules.pairs_spec() == old(self).rules.pairs_spec()
                },
            },
    {
        if !manifest.is_valid() {
            return Err(
                LinterError::plugin(String::from_str("rule manifest lacks a name or a version")),
            );
        }
        match self.rules.position(manifest.name.as_str()) {
            Some(i) => {
                proof {
                    crate::table::lemma_lookup_first(
                        self.rules.pairs_spec(),
                        manifest.name@,
                        i as int,
                    );
                }
                Err(
                    LinterError::plugin(
                        String::from_str("a rule of this name is loaded: ").concat(
                            manifest.name.as_str(),
                        ),
                    ),
                )
            },
            None => {
                let name = manifest.name.clone();
                proof {
                    crate::table::lemma_lookup_absent(self.rules.pairs_spec(), name@);
                }
                self.rules.insert(name, manifest);
                Ok(())
            },
        }
    }

    /// The names of the loaded rules, in load order.
    pub fn loaded_rules(&self) -> (names: Vec<String>)
        ensures
            text_seq(names@) == self.rule_names(),
    {
        let mut names: Vec<String> = Vec::new();
        let mut i: usize = 0;
        while i < self.rules.len()
            invariant
                i <= self.rules.pairs_spec().len(),
                names@.len() == i,
                forall|j: int| 0 <= j < i ==> (#[trigger] names@[j])@ == self.rules.pairs_spec()[j].0@,
            decreases self.rules.pairs_spec().len() - i,
        {
            names.push(self.rules.pairs()[i].0.clone());
            i += 1;
        }
        assert(text_seq(names@) =~= self.rule_names());
        names
    }

    /// The manifest of the rule loaded under `name`.
    pub fn get_manifest(&self, name: &str) -> (r: Option<&RuleManifest>)
        ensures
            match r {
                Some(m) => self.rules.get_spec(name@) == Some(*m),
                None => self.rules.get_spec(name@) is None,
            },
    {
        self.rules.get(name)
    }

    /// The version of every loaded rule under its name, in load order.
    pub fn rule_versions(&self) -> (versions: Table<String>)
        ensures
            pair_texts(versions.pairs_spec()) == versions_of(self.rules.pairs_spec()),
    {
        let mut versions: Table<String> = Table::new();
        let rules = self.rules.pairs();
        let mut i: usize = 0;
        while i < self.rules.len()
            invariant
                i <= self.rules.pairs_spec().len(),
                rules@ == self.rules.pairs_spec(),
                crate::table::no_key_twice(rules@),
                versions.pairs_spec().len() == i,
                forall|j: int|
                    0 <= j < i ==> (#[trigger] versions.pairs_spec()[j]).0@ == self.rules.pairs_spec()[j].0@
                        && versions.pairs_spec()[j].1@ == self.rules.pairs_spec()[j].1.version@,
            decreases self.rules.pairs_spec().len() - i,
        {
            let name = rules[i].0.clone();
            proof {
                assert forall|j: int| 0 <= j < versions.pairs_spec().len() implies (
                #[trigger] versions.pairs_spec()[j]).0@ != name@ by {
                    assert(rules@[j].0@ != rules@[i as int].0@);
                }
                crate::table::lemma_lookup_absent(versions.pairs_spec(), name@);
            }
            versions.insert(name, rules[i].1.version.clone());
            i += 1;
        }
        assert(pair_texts(versions.pairs_spec()) =~= versions_of(self.rules.pairs_spec()));
        versions
    }

    /// The finding that stands for a crashed rule.
    pub fn crash_diagnostic(rule: &str, detail: &str) -> (d: Diagnostic)
        ensures
            d@ == crash_view(rule@, detail@),
    {
        Diagnostic {
            rule_id: String::from_str(rule),
            message: String::from_str("rule crashed: ").concat(detail),
            span: Span::new(0, 0),
            severity: Some(Severity::Error),
        }
    }

    /// Gathers the findings of one file from the outcomes of the loaded
    /// rules, one outcome for each rule, in load order.  The findings of a
    /// rule stand in the order in which the rule gave them; a crashed rule
    /// adds the one finding that stands for its crash, and the rules after
    /// it count as before.  Fails exactly when the number of outcomes is
    /// not the number of rules.
    pub fn collect(&self, outcomes: &Vec<RuleOutcome>) -> (r: Result<Vec<Diagnostic>, LinterError>)
        ensures
            match r {
                Ok(found) => outcomes@.len() == self.rule_names().len() && views(found@)
                    == gathered(self.rule_names(), outcomes@, outcomes@.len() as int),
                Err(e) => outcomes@.len() != self.rule_names().len() && e.kind
                    == ErrorKind::Internal,
            },
    {
        if outcomes.len() != self.rules.len() {
            return Err(
                LinterError::internal(
                    String::from_str("the outcomes do not match the loaded rules"),
                ),
            );
        }
        let mut found: Vec<Diagnostic> = Vec::new();
        let mut i: usize = 0;
        assert(views(found@) =~= gathered(self.rule_names(), outcomes@, 0));
        while i < outcomes.len()
            invariant
                i <= outcomes.len(),
                outcomes@.len() == self.rules.pairs_spec().len(),
                views(found@) == gathered(self.rule_names(), outcomes@, i as int),
            decreases outcomes.len() - i,
        {
            let ghost before = views(found@);
            match &outcomes[i] {
                RuleOutcome::Completed(list) => {
                    append_copies(&mut found, list);
                },
                RuleOutcome::Crashed(detail) => {
                    let d = Self::crash_diagnostic(
                        self.rules.pairs()[i].0.as_str(),
                        detail.as_str(),
                    );
                    found.push(d);
                    assert(views(found@) =~= before + seq![d@]);
                },
            }
            assert(self.rule_names()[i as int] == self.rules.pairs_spec()[i as int].0@);
            i += 1;
        }
        Ok(found)
    }
}

} // verus!
