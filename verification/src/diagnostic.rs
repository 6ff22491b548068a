//! Findings of rules.

use crate::ast::Span;
use vstd::prelude::*;
use vstd::string::*;

verus! {

/// How grave a finding is.
#[derive(Clone, Copy, Debug, PartialEq, Eq, Structural)]
pub enum Severity {
    Error,
    Warning,
    Info,
}

impl Severity {
    /// The name under which the severity is written.
    pub open spec fn name_spec(self) -> Seq<char> {
        match self {
            Severity::Error => "error"@,
            Severity::Warning => "warning"@,
            Severity::Info => "info"@,
        }
    }

    pub fn name(&self) -> (s: &'static str)
        ensures
            s@ == self.name_spec(),
    {
        match self {
            Severity::Error => "error",
            Severity::Warning => "warning",
            Severity::Info => "info",
        }
    }
}

/// The mathematical content of a [`Diagnostic`].
pub struct DiagnosticView {
    pub rule_id: Seq<char>,
    pub message: Seq<char>,
    pub span: Span,
    pub severity: Option<Severity>,
}

/// A finding: the rule that made it, its message and the bytes of the
/// source that it is about.
#[derive(Clone, Debug)]
pub struct Diagnostic {
    pub rule_id: String,
    pub message: String,
    pub span: Span,
    pub severity: Option<Severity>,
}

impl View for Diagnostic {
    type V = DiagnosticView;

    open spec fn view(&self) -> DiagnosticView {
        DiagnosticView {
            rule_id: self.rule_id@,
            message: self.message@,
            span: self.span,
            severity: self.severity,
        }
    }
}

/// The contents of a list of findings, in order.
pub open spec fn views(list: Seq<Diagnostic>) -> Seq<DiagnosticView> {
    Seq::new(list.len(), |i: int| list[i]@)
}

impl Diagnostic {
    /// A finding without a severity.
    pub fn new(rule_id: &str, message: &str, span: Span) -> (d: Diagnostic)
        ensures
            d@ == (DiagnosticView { rule_id: rule_id@, message: message@, span, severity: None }),
    {
        Diagnostic {
            rule_id: String::from_str(rule_id),
            message: String::from_str(message),
            span,
            severity: None,
        }
    }

    /// The same finding with a severity.
    pub fn with_severity(self, severity: Severity) -> (d: Diagnostic)
        ensures
            d@ == (DiagnosticView { severity: Some(severity), ..self@ }),
    {
        Diagnostic {
            rule_id: self.rule_id,
            message: self.message,
            span: self.span,
            severity: Some(severity),
        }
    }

    /// A copy of the finding.
    pub fn duplicate(&self) -> (d: Diagnostic)
        ensures
            d@ == self@,
    {
        Diagnostic {
            rule_id: self.rule_id.clone(),
            message: self.message.clone(),
            span: self.span,
            severity: self.severity,
        }
    }
}

/// A copy of a list of findings.
pub fn duplicate_all(list: &Vec<Diagnostic>) -> (copy: Vec<Diagnostic>)
    ensures
        views(copy@) == views(list@),
{
    let mut copy: Vec<Diagnostic> = Vec::new();
    let mut i: usize = 0;
    while i < list.len()
        invariant
            i <= list.len(),
            copy@.len() == i,
            forall|j: int| 0 <= j < i ==> (#[trigger] copy@[j])@ == list@[j]@,
        decreases list.len() - i,
    {
        copy.push(list[i].duplicate());
        i += 1;
    }
    assert(views(copy@) =~= views(list@));
    copy
}

/// Appends copies of the findings of `more` to `all`.
pub fn append_copies(all: &mut Vec<Diagnostic>, more: &Vec<Diagnostic>)
    ensures
        views(final(all)@) == views(old(all)@) + views(more@),
{
    let mut i: usize = 0;
    assert(views(all@) =~= views(old(all)@) + views(more@).take(0));
    while i < more.len()
        invariant
            i <= more.len(),
            views(all@) == views(old(all)@) + views(more@).take(i as int),
        decreases more.len() - i,
    {
        let ghost before = views(all@);
        all.push(more[i].duplicate());
        assert(views(all@) =~= before.push(more@[i as int]@));
        assert(views(more@).take(i + 1) =~= views(more@).take(i as int).push(more@[i as int]@));
        assert(views(all@) =~= views(old(all)@) + views(more@).take(i + 1));
        i += 1;
    }
    assert(views(more@).take(i as int) =~= views(more@));
}

} // verus!
