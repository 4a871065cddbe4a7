//! Lint: what is this environment still missing.
//!
//! The rule codes follow the project's rule list: L001 to L008 and L012 to L014 are
//! implemented; L009 to L011 concern the drawing and are not here. The [`Rule`] enum is
//! the one register of codes.

use vstd::prelude::*;
use crate::Project;
use crate::ProjectView;
use crate::environment::{ConnectionEnd, ConnectionView, ContainerInstance, ContainerInstanceView, Endpoint,
    EndpointView, Endpointing, EndpointingView, Environment, EnvironmentView, InfrastructureNode,
    InfrastructureNodeView, InstanceRef, InstanceRefView, SoftwareSystemInstance, SoftwareSystemInstanceView,
    env_instances, instance_refs_view, opt_id_view};
use crate::id::Id;
use crate::index::{EnvIndex, matching, serving_spec};
use crate::logical::{Container, ContainerView, EndpointDef, EndpointDefView, Logical, LogicalView, Relationship,
    RelationshipEnd, RelationshipEndView, RelationshipView, SoftwareSystem, SoftwareSystemView, container_ids,
    def_ids, defs_view, first_index, lemma_first_index, lemma_first_index_unique, person_ids, relationship_ids,
    system_ids};
use crate::order::{seq_lt, text_lt, text_eq, lemma_lt_irreflexive, lemma_lt_asymmetric, lemma_lt_transitive,
    lemma_lt_total};
use crate::text::{blank, decimal, decimal_text, is_blank};

verus! {

#[derive(Debug, Clone, Copy, PartialEq, Eq, Structural, Hash)]
pub enum Severity {
    Info,
    Warning,
    Error,
}

/// The rule codes. Each one's text form is its code, such as `L001`.
#[derive(Debug, Clone, Copy, PartialEq, Eq, Structural, Hash)]
pub enum Rule {
    /// A logical element has no realisation in an environment.
    L001,
    /// A relationship cannot be walked in an environment (reachability is broken).
    L002,
    /// A connection points at an instance, device or endpoint that does not exist.
    L003,
    /// A wildcard matches a different number of instances than its `expect`.
    L004,
    /// A wildcard has no `expect`.
    L005,
    /// An endpoint has no address.
    L006,
    /// A connection has no purpose.
    L007,
    /// An instance is touched by no connection.
    L008,
    /// A model element points at a model element that does not exist. Deleting a
    /// service must not leave its instances silently pointing at nothing.
    L012,
    /// The target of a relationship is a person. People have no endpoints and are
    /// never deployed; they can only be a source.
    L013,
    /// Two different kinds of things in one environment share a name. Names are
    /// resolved instances first, then devices, then external-system instances, and the
    /// first found wins, so the other one cannot be reached by name.
    L014,
}

pub open spec fn rule_code(r: Rule) -> Seq<char> {
    match r {
        Rule::L001 => "L001"@,
        Rule::L002 => "L002"@,
        Rule::L003 => "L003"@,
        Rule::L004 => "L004"@,
        Rule::L005 => "L005"@,
        Rule::L006 => "L006"@,
        Rule::L007 => "L007"@,
        Rule::L008 => "L008"@,
        Rule::L012 => "L012"@,
        Rule::L013 => "L013"@,
        Rule::L014 => "L014"@,
    }
}

pub open spec fn rule_severity(r: Rule) -> Severity {
    match r {
        Rule::L001 | Rule::L002 | Rule::L003 | Rule::L004 | Rule::L006 | Rule::L012 | Rule::L013 => Severity::Error,
        Rule::L005 | Rule::L007 | Rule::L008 | Rule::L014 => Severity::Warning,
    }
}

impl Rule {
    pub fn code(self) -> (r: &'static str)
        ensures
            r@ == rule_code(self),
    {
        match self {
            Rule::L001 => "L001",
            Rule::L002 => "L002",
            Rule::L003 => "L003",
            Rule::L004 => "L004",
            Rule::L005 => "L005",
            Rule::L006 => "L006",
            Rule::L007 => "L007",
            Rule::L008 => "L008",
            Rule::L012 => "L012",
            Rule::L013 => "L013",
            Rule::L014 => "L014",
        }
    }

    pub fn severity(self) -> (r: Severity)
        ensures
            r == rule_severity(self),
    {
        match self {
            Rule::L001 | Rule::L002 | Rule::L003 | Rule::L004 | Rule::L006 | Rule::L012 | Rule::L013 => Severity::Error,
            Rule::L005 | Rule::L007 | Rule::L008 | Rule::L014 => Severity::Warning,
        }
    }
}

/// One finding. Findings are ordered by their fields in this order, so that lint's
/// output is stable and can be compared whole.
#[derive(Debug, Clone, PartialEq, Eq)]
pub struct Finding {
    pub rule: Rule,
    /// The environment it is in; `None` for a problem of the logical layer itself.
    pub environment: Option<Id>,
    /// The element at fault.
    pub subject: Id,
    /// Which end of the connection is at fault. Both ends of one connection can be
    /// wildcards, so two findings may share rule and subject and differ only here.
    pub end: Option<ConnectionEnd>,
    pub detail: String,
}

pub struct FindingView {
    pub rule: Rule,
    pub environment: Option<Seq<char>>,
    pub subject: Seq<char>,
    pub end: Option<ConnectionEnd>,
    pub detail: Seq<char>,
}

impl View for Finding {
    type V = FindingView;

    open spec fn view(&self) -> FindingView {
        FindingView {
            rule: self.rule,
            environment: opt_id_view(self.environment),
            subject: self.subject@,
            end: self.end,
            detail: self.detail@,
        }
    }
}

impl Finding {
    /// A copy of the finding.
    pub fn copy(&self) -> (r: Finding)
        ensures
            r@ == self@,
    {
        Finding {
            rule: self.rule,
            environment: crate::environment::copy_opt_id(&self.environment),
            subject: self.subject.copy(),
            end: self.end,
            detail: self.detail.clone(),
        }
    }

    pub fn severity(&self) -> (r: Severity)
        ensures
            r == rule_severity(self.rule),
    {
        self.rule.severity()
    }

    /// Whether two findings say the same thing.
    pub fn same(&self, other: &Finding) -> (r: bool)
        ensures
            r == (self@ == other@),
    {
        let same_end = match (self.end, other.end) {
            (None, None) => true,
            (Some(ConnectionEnd::From), Some(ConnectionEnd::From)) => true,
            (Some(ConnectionEnd::To), Some(ConnectionEnd::To)) => true,
            _ => false,
        };
        self.rule == other.rule && same_opt_id(&self.environment, &other.environment) && self.subject.same(&other.subject)
            && same_end && self.detail == other.detail
    }
}

/// Whether the list holds a finding that says the same as `f`.
pub fn contains_finding(v: &Vec<Finding>, f: &Finding) -> (r: bool)
    ensures
        r == findings_view(v@).contains(f@),
{
    let ghost s = findings_view(v@);
    let mut i: usize = 0;
    while i < v.len()
        invariant
            i <= v@.len(),
            s == findings_view(v@),
            forall|k: int| 0 <= k < i ==> s[k] != f@,
        decreases v.len() - i,
    {
        assert(s[i as int] == v@[i as int]@);
        if v[i].same(f) {
            return true;
        }
        i += 1;
    }
    false
}

/// The findings of `a` that `b` does not have, in `a`'s order.
pub fn findings_without(a: &Vec<Finding>, b: &Vec<Finding>) -> (r: Vec<Finding>)
    requires
        strictly_increasing(findings_view(a@)),
    ensures
        strictly_increasing(findings_view(r@)),
        findings_view(r@).to_set() == findings_view(a@).to_set().difference(findings_view(b@).to_set()),
{
    let ghost sa = findings_view(a@);
    let ghost sb = findings_view(b@);
    let mut out: Vec<Finding> = Vec::new();
    let mut i: usize = 0;
    while i < a.len()
        invariant
            i <= a@.len(),
            sa == findings_view(a@),
            sb == findings_view(b@),
            strictly_increasing(sa),
            strictly_increasing(findings_view(out@)),
            forall|k: int, m: int| 0 <= k < out@.len() && i <= m < sa.len() ==> finding_lt(#[trigger] findings_view(out@)[k], #[trigger] sa[m]),
            findings_view(out@).to_set() == sa.take(i as int).to_set().difference(sb.to_set()),
        decreases a.len() - i,
    {
        let ghost fo = findings_view(out@);
        let ghost x = sa[i as int];
        assert(x == a@[i as int]@);
        assert(sa.take(i + 1) =~= sa.take(i as int).push(x));
        proof {
            sa.take(i as int).lemma_push_to_set_commute(x);
            fo.lemma_push_to_set_commute(x);
        }
        if !contains_finding(b, &a[i]) {
            out.push(a[i].copy());
            proof {
                assert(findings_view(out@) =~= fo.push(x));
                assert(fo.push(x).to_set() =~= fo.to_set().insert(x));
                assert(sa.take(i + 1).to_set() =~= sa.take(i as int).to_set().insert(x));
                assert(findings_view(out@).to_set() =~= sa.take(i + 1).to_set().difference(sb.to_set()));
                assert forall|k: int, m: int| 0 <= k < out@.len() && i + 1 <= m < sa.len() implies finding_lt(#[trigger] findings_view(out@)[k], #[trigger] sa[m]) by {
                    if k < fo.len() {
                        assert(findings_view(out@)[k] == fo[k]);
                    }
                }
            }
        } else {
            proof {
                assert(sa.take(i + 1).to_set() =~= sa.take(i as int).to_set().insert(x));
                assert(sa.take(i as int).to_set().difference(sb.to_set()) =~= sa.take(i + 1).to_set().difference(sb.to_set()));
            }
        }
        i += 1;
    }
    assert(sa.take(i as int) =~= sa);
    out
}

pub open spec fn findings_view(s: Seq<Finding>) -> Seq<FindingView> {
    s.map_values(|f: Finding| f@)
}

pub open spec fn fv(rule: Rule, environment: Option<Seq<char>>, subject: Seq<char>, end: Option<ConnectionEnd>, detail: Seq<char>) -> FindingView {
    FindingView { rule, environment, subject, end, detail }
}

// ---- the order of findings ----

pub open spec fn rule_rank(r: Rule) -> int {
    match r {
        Rule::L001 => 1,
        Rule::L002 => 2,
        Rule::L003 => 3,
        Rule::L004 => 4,
        Rule::L005 => 5,
        Rule::L006 => 6,
        Rule::L007 => 7,
        Rule::L008 => 8,
        Rule::L012 => 12,
        Rule::L013 => 13,
        Rule::L014 => 14,
    }
}

pub open spec fn end_rank(e: Option<ConnectionEnd>) -> int {
    match e {
        None => 0,
        Some(ConnectionEnd::From) => 1,
        Some(ConnectionEnd::To) => 2,
    }
}

/// `None` first, then by text.
pub open spec fn opt_text_lt(a: Option<Seq<char>>, b: Option<Seq<char>>) -> bool {
    match (a, b) {
        (None, Some(_)) => true,
        (Some(x), Some(y)) => seq_lt(x, y),
        _ => false,
    }
}

/// Whether `a` comes strictly before `b`: by rule, environment, subject, end, detail.
pub open spec fn finding_lt(a: FindingView, b: FindingView) -> bool {
    if rule_rank(a.rule) != rule_rank(b.rule) {
        rule_rank(a.rule) < rule_rank(b.rule)
    } else if a.environment != b.environment {
        opt_text_lt(a.environment, b.environment)
    } else if a.subject != b.subject {
        seq_lt(a.subject, b.subject)
    } else if end_rank(a.end) != end_rank(b.end) {
        end_rank(a.end) < end_rank(b.end)
    } else {
        seq_lt(a.detail, b.detail)
    }
}

pub open spec fn strictly_increasing(s: Seq<FindingView>) -> bool {
    forall|i: int, j: int| 0 <= i < j < s.len() ==> finding_lt(s[i], s[j])
}

proof fn lemma_opt_total(a: Option<Seq<char>>, b: Option<Seq<char>>)
    ensures
        a == b || opt_text_lt(a, b) || opt_text_lt(b, a),
        !(opt_text_lt(a, b) && opt_text_lt(b, a)),
        !opt_text_lt(a, a),
{
    match (a, b) {
        (Some(x), Some(y)) => {
            lemma_lt_total(x, y);
            lemma_lt_irreflexive(x);
            if seq_lt(x, y) {
                lemma_lt_asymmetric(x, y);
            }
        },
        (Some(x), None) => {
            lemma_lt_irreflexive(x);
        },
        _ => {},
    }
}

proof fn lemma_opt_transitive(a: Option<Seq<char>>, b: Option<Seq<char>>, c: Option<Seq<char>>)
    requires
        opt_text_lt(a, b),
        opt_text_lt(b, c),
    ensures
        opt_text_lt(a, c),
{
    match (a, b, c) {
        (Some(x), Some(y), Some(z)) => {
            lemma_lt_transitive(x, y, z);
        },
        _ => {},
    }
}

pub proof fn lemma_finding_total(a: FindingView, b: FindingView)
    ensures
        a == b || finding_lt(a, b) || finding_lt(b, a),
        !(finding_lt(a, b) && finding_lt(b, a)),
        !finding_lt(a, a),
{
    lemma_opt_total(a.environment, b.environment);
    lemma_opt_total(a.environment, a.environment);
    lemma_lt_total(a.subject, b.subject);
    lemma_lt_total(a.detail, b.detail);
    lemma_lt_irreflexive(a.subject);
    lemma_lt_irreflexive(a.detail);
    if seq_lt(a.subject, b.subject) {
        lemma_lt_asymmetric(a.subject, b.subject);
    }
    if seq_lt(a.detail, b.detail) {
        lemma_lt_asymmetric(a.detail, b.detail);
    }
}

pub proof fn lemma_finding_transitive(a: FindingView, b: FindingView, c: FindingView)
    requires
        finding_lt(a, b),
        finding_lt(b, c),
    ensures
        finding_lt(a, c),
{
    lemma_finding_total(a, b);
    lemma_finding_total(b, c);
    lemma_finding_total(a, c);
    lemma_opt_total(a.environment, b.environment);
    lemma_opt_total(b.environment, c.environment);
    lemma_opt_total(a.environment, c.environment);
    if opt_text_lt(a.environment, b.environment) && opt_text_lt(b.environment, c.environment) {
        lemma_opt_transitive(a.environment, b.environment, c.environment);
    }
    if seq_lt(a.subject, b.subject) && seq_lt(b.subject, c.subject) {
        lemma_lt_transitive(a.subject, b.subject, c.subject);
    }
    if seq_lt(a.detail, b.detail) && seq_lt(b.detail, c.detail) {
        lemma_lt_transitive(a.detail, b.detail, c.detail);
    }
    lemma_lt_total(a.subject, c.subject);
    lemma_lt_total(a.detail, c.detail);
    if seq_lt(a.subject, b.subject) {
        lemma_lt_asymmetric(a.subject, b.subject);
    }
    if seq_lt(b.subject, c.subject) {
        lemma_lt_asymmetric(b.subject, c.subject);
    }
    if seq_lt(a.detail, b.detail) {
        lemma_lt_asymmetric(a.detail, b.detail);
    }
    if seq_lt(b.detail, c.detail) {
        lemma_lt_asymmetric(b.detail, c.detail);
    }
}

fn rank(r: Rule) -> (n: u8)
    ensures
        n as int == rule_rank(r),
{
    match r {
        Rule::L001 => 1,
        Rule::L002 => 2,
        Rule::L003 => 3,
        Rule::L004 => 4,
        Rule::L005 => 5,
        Rule::L006 => 6,
        Rule::L007 => 7,
        Rule::L008 => 8,
        Rule::L012 => 12,
        Rule::L013 => 13,
        Rule::L014 => 14,
    }
}

fn end_number(e: Option<ConnectionEnd>) -> (n: u8)
    ensures
        n as int == end_rank(e),
{
    match e {
        None => 0,
        Some(ConnectionEnd::From) => 1,
        Some(ConnectionEnd::To) => 2,
    }
}

fn same_opt_id(a: &Option<Id>, b: &Option<Id>) -> (r: bool)
    ensures
        r == (opt_id_view(*a) == opt_id_view(*b)),
{
    match (a, b) {
        (None, None) => true,
        (Some(x), Some(y)) => x.same(y),
        _ => false,
    }
}

fn opt_id_less(a: &Option<Id>, b: &Option<Id>) -> (r: bool)
    ensures
        r == opt_text_lt(opt_id_view(*a), opt_id_view(*b)),
{
    match (a, b) {
        (None, Some(_)) => true,
        (Some(x), Some(y)) => text_lt(x.as_str(), y.as_str()),
        _ => false,
    }
}

/// Whether `a` comes strictly before `b` in the order of findings.
fn finding_less(a: &Finding, b: &Finding) -> (r: bool)
    ensures
        r == finding_lt(a@, b@),
{
    let ra = rank(a.rule);
    let rb = rank(b.rule);
    if ra != rb {
        return ra < rb;
    }
    if !same_opt_id(&a.environment, &b.environment) {
        return opt_id_less(&a.environment, &b.environment);
    }
    if !a.subject.same(&b.subject) {
        return text_lt(a.subject.as_str(), b.subject.as_str());
    }
    let ea = end_number(a.end);
    let eb = end_number(b.end);
    if ea != eb {
        return ea < eb;
    }
    text_lt(a.detail.as_str(), b.detail.as_str())
}

/// Adds a finding to a strictly increasing list unless an equal one is there.
fn insert_finding(v: &mut Vec<Finding>, f: Finding)
    requires
        strictly_increasing(findings_view(old(v)@)),
    ensures
        strictly_increasing(findings_view(final(v)@)),
        findings_view(final(v)@).to_set() == findings_view(old(v)@).to_set().insert(f@),
{
    let ghost s0 = findings_view(v@);
    let mut i: usize = 0;
    while i < v.len() && finding_less(&v[i], &f)
        invariant
            i <= v@.len(),
            findings_view(v@) == s0,
            forall|k: int| 0 <= k < i ==> finding_lt(s0[k], f@),
        decreases v.len() - i,
    {
        i += 1;
    }
    proof {
        if i < v@.len() {
            lemma_finding_total(s0[i as int], f@);
        }
    }
    if i < v.len() && !finding_less(&f, &v[i]) {
        proof {
            assert(s0[i as int] == f@);
            assert(s0.to_set().insert(f@) =~= s0.to_set());
        }
        return;
    }
    let ghost fview = f@;
    v.insert(i, f);
    proof {
        let s1 = findings_view(v@);
        assert(s1 =~= s0.take(i as int).push(fview) + s0.skip(i as int));
        assert forall|a: int, b: int| 0 <= a < b < s1.len() implies finding_lt(s1[a], s1[b]) by {
            if b < i {
                assert(s1[a] == s0[a] && s1[b] == s0[b]);
            } else if a < i && b == i {
                assert(s1[a] == s0[a]);
            } else if a < i && b > i {
                assert(s1[a] == s0[a] && s1[b] == s0[b - 1]);
                assert(finding_lt(s0[a], fview));
                assert(finding_lt(fview, s0[i as int]));
                if b - 1 > i {
                    lemma_finding_transitive(fview, s0[i as int], s0[b - 1]);
                }
                lemma_finding_transitive(s0[a], fview, s0[b - 1]);
            } else if a == i {
                assert(s1[b] == s0[b - 1]);
                if b - 1 > i {
                    lemma_finding_transitive(fview, s0[i as int], s0[b - 1]);
                }
            } else {
                assert(s1[a] == s0[a - 1] && s1[b] == s0[b - 1]);
            }
        }
        assert(s1.to_set() =~= s0.to_set().insert(fview)) by {
            assert forall|e: FindingView| s1.to_set().contains(e) implies s0.to_set().insert(fview).contains(e) by {
                let k = choose|k: int| 0 <= k < s1.len() && s1[k] == e;
                if k < i {
                    assert(s0[k] == e);
                } else if k > i {
                    assert(s0[k - 1] == e);
                }
            }
            assert forall|e: FindingView| s0.to_set().insert(fview).contains(e) implies s1.to_set().contains(e) by {
                if e == fview {
                    assert(s1[i as int] == e);
                } else {
                    let k = choose|k: int| 0 <= k < s0.len() && s0[k] == e;
                    if k < i {
                        assert(s1[k] == e);
                    } else {
                        assert(s1[k + 1] == e);
                    }
                }
            }
        }
    }
}

/// The findings in order, each once.
fn sort_and_dedup(raw: &Vec<Finding>) -> (r: Vec<Finding>)
    ensures
        strictly_increasing(findings_view(r@)),
        findings_view(r@).to_set() == findings_view(raw@).to_set(),
{
    let mut out: Vec<Finding> = Vec::new();
    let ghost all = findings_view(raw@);
    let mut i: usize = 0;
    proof {
        assert(findings_view(out@).to_set() =~= all.take(0).to_set());
    }
    while i < raw.len()
        invariant
            i <= raw@.len(),
            all == findings_view(raw@),
            strictly_increasing(findings_view(out@)),
            findings_view(out@).to_set() == all.take(i as int).to_set(),
        decreases raw.len() - i,
    {
        let f = raw[i].copy();
        insert_finding(&mut out, f);
        proof {
            assert(all.take(i + 1) =~= all.take(i as int).push(all[i as int]));
            all.take(i as int).lemma_push_to_set_commute(all[i as int]);
        }
        i += 1;
    }
    assert(all.take(i as int) =~= all);
    out
}


// ---- building findings ----

/// The findings of each element of `s` in turn.
pub open spec fn flat<A>(s: Seq<A>, f: spec_fn(A) -> Seq<FindingView>) -> Seq<FindingView>
    decreases s.len(),
{
    if s.len() == 0 {
        seq![]
    } else {
        flat(s.drop_last(), f) + f(s.last())
    }
}

pub proof fn lemma_flat_step<A>(s: Seq<A>, f: spec_fn(A) -> Seq<FindingView>, i: int)
    requires
        0 <= i < s.len(),
    ensures
        flat(s.take(i + 1), f) == flat(s.take(i), f) + f(s[i]),
{
    assert(s.take(i + 1).drop_last() =~= s.take(i));
    assert(s.take(i + 1).last() == s[i]);
}

pub proof fn lemma_flat_all<A>(s: Seq<A>, f: spec_fn(A) -> Seq<FindingView>)
    ensures
        flat(s.take(s.len() as int), f) == flat(s, f),
{
    assert(s.take(s.len() as int) =~= s);
}

/// One finding when the condition holds, none otherwise.
pub open spec fn when(c: bool, f: FindingView) -> Seq<FindingView> {
    if c {
        seq![f]
    } else {
        seq![]
    }
}

fn emit(out: &mut Vec<Finding>, f: Finding)
    ensures
        findings_view(final(out)@) == findings_view(old(out)@) + seq![f@],
{
    let ghost before = out@;
    let ghost fview = f@;
    out.push(f);
    assert(findings_view(out@) =~= findings_view(before) + seq![fview]);
}

fn finding(rule: Rule, environment: Option<&Id>, subject: &Id, end: Option<ConnectionEnd>, detail: String) -> (r: Finding)
    ensures
        r@ == fv(rule, match environment { Some(e) => Some(e@), None => None }, subject@, end, detail@),
{
    Finding {
        rule,
        environment: match environment {
            Some(e) => Some(e.copy()),
            None => None,
        },
        subject: subject.copy(),
        end,
        detail,
    }
}

// ---- the logical layer ----

/// L007 on a relationship: it has no purpose.
pub open spec fn purpose_finding(r: RelationshipView) -> Seq<FindingView> {
    when(blank(r.purpose), fv(Rule::L007, None, r.id, None, "邏輯連線 "@ + r.slug + " 沒有填用途"@))
}

pub open spec fn purpose_fn() -> spec_fn(RelationshipView) -> Seq<FindingView> {
    |r: RelationshipView| purpose_finding(r)
}

/// L012 on a service: its system does not exist.
pub open spec fn container_ref(l: LogicalView, c: ContainerView) -> Seq<FindingView> {
    when(!system_ids(l).contains(c.system), fv(Rule::L012, None, c.id, None, "服務 "@ + c.slug + " 屬於一個不存在的系統 "@ + c.system))
}

pub open spec fn container_ref_fn(l: LogicalView) -> spec_fn(ContainerView) -> Seq<FindingView> {
    |c: ContainerView| container_ref(l, c)
}

/// What a relationship end names that does not exist, if anything.
pub open spec fn missing_text(l: LogicalView, end: RelationshipEndView) -> Option<Seq<char>> {
    match end {
        RelationshipEndView::Container(id) => if container_ids(l).contains(id) { None } else { Some("服務 "@ + id) },
        RelationshipEndView::System(id) => if system_ids(l).contains(id) { None } else { Some("系統 "@ + id) },
        RelationshipEndView::Person(id) => if person_ids(l).contains(id) { None } else { Some("人 "@ + id) },
    }
}

pub open spec fn end_label(e: ConnectionEnd) -> Seq<char> {
    match e {
        ConnectionEnd::From => "來源"@,
        ConnectionEnd::To => "目標"@,
    }
}

pub open spec fn missing_end(l: LogicalView, r: RelationshipView, which: ConnectionEnd, end: RelationshipEndView) -> Seq<FindingView> {
    match missing_text(l, end) {
        Some(m) => seq![fv(Rule::L012, None, r.id, Some(which), "契約 "@ + r.slug + " 的"@ + end_label(which) + "端指向不存在的"@ + m)],
        None => seq![],
    }
}

/// How a person is named in a finding: by slug, or by id when there is no such person.
pub open spec fn person_name(l: LogicalView, id: Seq<char>) -> Seq<char> {
    match first_index(person_ids(l), id) {
        Some(k) => l.people[k].slug,
        None => id,
    }
}

/// L013: the target of a relationship is a person.
pub open spec fn person_target(l: LogicalView, r: RelationshipView) -> Seq<FindingView> {
    match r.to {
        RelationshipEndView::Person(id) => seq![fv(Rule::L013, None, r.id, Some(ConnectionEnd::To),
            "契約 "@ + r.slug + " 的目標端是人（"@ + person_name(l, id)
                + "）。人沒有接點也不會被部署，只能當來源——把兩端對調，或改成連到對方的服務。"@)],
        _ => seq![],
    }
}

/// Whether the target of a relationship carries its endpoint definition. A missing
/// target, or a person, counts as carrying it: other rules report those.
pub open spec fn target_has_endpoint(l: LogicalView, r: RelationshipView) -> bool {
    match r.to {
        RelationshipEndView::Container(id) => match first_index(container_ids(l), id) {
            Some(k) => def_ids(l.containers[k].endpoints).contains(r.to_endpoint),
            None => true,
        },
        RelationshipEndView::System(id) => match first_index(system_ids(l), id) {
            Some(k) => def_ids(l.systems[k].endpoints).contains(r.to_endpoint),
            None => true,
        },
        RelationshipEndView::Person(_) => true,
    }
}

pub open spec fn target_endpoint_finding(l: LogicalView, r: RelationshipView) -> Seq<FindingView> {
    when(!target_has_endpoint(l, r), fv(Rule::L012, None, r.id, Some(ConnectionEnd::To),
        "契約 "@ + r.slug + " 的目標身上沒有接點定義 "@ + r.to_endpoint))
}

pub open spec fn relationship_refs(l: LogicalView, r: RelationshipView) -> Seq<FindingView> {
    missing_end(l, r, ConnectionEnd::From, r.from) + missing_end(l, r, ConnectionEnd::To, r.to)
        + person_target(l, r) + target_endpoint_finding(l, r)
}

pub open spec fn relationship_refs_fn(l: LogicalView) -> spec_fn(RelationshipView) -> Seq<FindingView> {
    |r: RelationshipView| relationship_refs(l, r)
}

/// L012 and L013 on the logical layer.
pub open spec fn logical_refs(l: LogicalView) -> Seq<FindingView> {
    flat(l.containers, container_ref_fn(l)) + flat(l.relationships, relationship_refs_fn(l))
}

fn has_container(l: &Logical, id: &Id) -> (r: bool)
    ensures
        r == container_ids(l@).contains(id@),
{
    proof {
        crate::logical::lemma_first_index_contains(container_ids(l@), id@);
    }
    l.container(id).is_some()
}

fn has_system(l: &Logical, id: &Id) -> (r: bool)
    ensures
        r == system_ids(l@).contains(id@),
{
    proof {
        crate::logical::lemma_first_index_contains(system_ids(l@), id@);
    }
    l.system(id).is_some()
}

fn has_person(l: &Logical, id: &Id) -> (r: bool)
    ensures
        r == person_ids(l@).contains(id@),
{
    let mut i: usize = 0;
    while i < l.people.len()
        invariant
            i <= l.people@.len(),
            forall|j: int| 0 <= j < i ==> l.people@[j].id@ != id@,
        decreases l.people.len() - i,
    {
        if l.people[i].id.same(id) {
            assert(person_ids(l@)[i as int] == id@);
            return true;
        }
        i += 1;
    }
    proof {
        if person_ids(l@).contains(id@) {
            let j = choose|j: int| 0 <= j < person_ids(l@).len() && person_ids(l@)[j] == id@;
            assert(l.people@[j].id@ == id@);
        }
    }
    false
}

fn first_person<'a>(l: &'a Logical, id: &Id) -> (r: Option<&'a crate::logical::Person>)
    ensures
        match first_index(person_ids(l@), id@) {
            Some(k) => r matches Some(p) && p@ == l@.people[k],
            None => r is None,
        },
{
    proof {
        lemma_first_index(person_ids(l@), id@);
    }
    let mut i: usize = 0;
    while i < l.people.len()
        invariant
            i <= l.people@.len(),
            forall|j: int| 0 <= j < i ==> l.people@[j].id@ != id@,
        decreases l.people.len() - i,
    {
        if l.people[i].id.same(id) {
            proof {
                assert(person_ids(l@)[i as int] == id@);
                lemma_first_index_unique(person_ids(l@), id@, i as int);
            }
            return Some(&l.people[i]);
        }
        i += 1;
    }
    None
}

fn has_def(defs: &Vec<EndpointDef>, id: &Id) -> (r: bool)
    ensures
        r == def_ids(defs_view(defs@)).contains(id@),
{
    let mut i: usize = 0;
    while i < defs.len()
        invariant
            i <= defs@.len(),
            forall|j: int| 0 <= j < i ==> defs@[j].id@ != id@,
        decreases defs.len() - i,
    {
        if defs[i].id.same(id) {
            assert(def_ids(defs_view(defs@))[i as int] == id@);
            return true;
        }
        i += 1;
    }
    proof {
        if def_ids(defs_view(defs@)).contains(id@) {
            let j = choose|j: int| 0 <= j < def_ids(defs_view(defs@)).len() && def_ids(defs_view(defs@))[j] == id@;
            assert(defs@[j].id@ == id@);
        }
    }
    false
}

fn check_purpose(r: &Relationship, out: &mut Vec<Finding>)
    ensures
        findings_view(final(out)@) == findings_view(old(out)@) + purpose_finding(r@),
{
    if is_blank(r.purpose.as_str()) {
        let mut d = "邏輯連線 ".to_string();
        d.append(r.slug.as_str());
        d.append(" 沒有填用途");
        emit(out, finding(Rule::L007, None, &r.id, None, d));
    } else {
        assert(findings_view(out@) =~= findings_view(out@) + seq![]);
    }
}

fn check_container_ref(l: &Logical, c: &Container, out: &mut Vec<Finding>)
    ensures
        findings_view(final(out)@) == findings_view(old(out)@) + container_ref(l@, c@),
{
    if !has_system(l, &c.system) {
        let mut d = "服務 ".to_string();
        d.append(c.slug.as_str());
        d.append(" 屬於一個不存在的系統 ");
        d.append(c.system.as_str());
        emit(out, finding(Rule::L012, None, &c.id, None, d));
    } else {
        assert(findings_view(out@) =~= findings_view(out@) + seq![]);
    }
}

fn missing_of(l: &Logical, end: &RelationshipEnd) -> (r: Option<String>)
    ensures
        match missing_text(l@, end@) {
            Some(m) => r matches Some(s) && s@ == m,
            None => r is None,
        },
{
    match end {
        RelationshipEnd::Container(id) => if has_container(l, id) {
            None
        } else {
            let mut s = "服務 ".to_string();
            s.append(id.as_str());
            Some(s)
        },
        RelationshipEnd::System(id) => if has_system(l, id) {
            None
        } else {
            let mut s = "系統 ".to_string();
            s.append(id.as_str());
            Some(s)
        },
        RelationshipEnd::Person(id) => if has_person(l, id) {
            None
        } else {
            let mut s = "人 ".to_string();
            s.append(id.as_str());
            Some(s)
        },
    }
}

fn check_missing_end(l: &Logical, r: &Relationship, which: ConnectionEnd, end: &RelationshipEnd, out: &mut Vec<Finding>)
    ensures
        findings_view(final(out)@) == findings_view(old(out)@) + missing_end(l@, r@, which, end@),
{
    match missing_of(l, end) {
        Some(m) => {
            let mut d = "契約 ".to_string();
            d.append(r.slug.as_str());
            d.append(" 的");
            d.append(which.label());
            d.append("端指向不存在的");
            d.append(m.as_str());
            emit(out, finding(Rule::L012, None, &r.id, Some(which), d));
        },
        None => {
            assert(findings_view(out@) =~= findings_view(out@) + seq![]);
        },
    }
}

fn target_endpoint_ok(l: &Logical, r: &Relationship) -> (b: bool)
    ensures
        b == target_has_endpoint(l@, r@),
{
    match &r.to {
        RelationshipEnd::Container(id) => match l.container(id) {
            Some(c) => has_def(&c.endpoints, &r.to_endpoint),
            None => true,
        },
        RelationshipEnd::System(id) => match l.system(id) {
            Some(s) => has_def(&s.endpoints, &r.to_endpoint),
            None => true,
        },
        RelationshipEnd::Person(_) => true,
    }
}

fn check_relationship_refs(l: &Logical, r: &Relationship, out: &mut Vec<Finding>)
    ensures
        findings_view(final(out)@) == findings_view(old(out)@) + relationship_refs(l@, r@),
{
    let ghost start = findings_view(out@);
    check_missing_end(l, r, ConnectionEnd::From, &r.from, out);
    check_missing_end(l, r, ConnectionEnd::To, &r.to, out);
    let ghost mid = findings_view(out@);
    match &r.to {
        RelationshipEnd::Person(person) => {
            let name = match first_person(l, person) {
                Some(p) => p.slug.clone(),
                None => person.to_text(),
            };
            let mut d = "契約 ".to_string();
            d.append(r.slug.as_str());
            d.append(" 的目標端是人（");
            d.append(name.as_str());
            d.append("）。人沒有接點也不會被部署，只能當來源——把兩端對調，或改成連到對方的服務。");
            emit(out, finding(Rule::L013, None, &r.id, Some(ConnectionEnd::To), d));
        },
        _ => {},
    }
    assert(findings_view(out@) =~= mid + person_target(l@, r@));
    let ghost mid2 = findings_view(out@);
    if !target_endpoint_ok(l, r) {
        let mut d = "契約 ".to_string();
        d.append(r.slug.as_str());
        d.append(" 的目標身上沒有接點定義 ");
        d.append(r.to_endpoint.as_str());
        emit(out, finding(Rule::L012, None, &r.id, Some(ConnectionEnd::To), d));
    }
    assert(findings_view(out@) =~= mid2 + target_endpoint_finding(l@, r@));
    assert(findings_view(out@) =~= start + relationship_refs(l@, r@));
}

fn check_logical(l: &Logical, out: &mut Vec<Finding>)
    ensures
        findings_view(final(out)@) == findings_view(old(out)@) + flat(l@.relationships, purpose_fn()) + logical_refs(l@),
{
    let ghost start = findings_view(out@);
    let mut i: usize = 0;
    while i < l.relationships.len()
        invariant
            i <= l.relationships@.len(),
            findings_view(out@) == start + flat(l@.relationships.take(i as int), purpose_fn()),
        decreases l.relationships.len() - i,
    {
        check_purpose(&l.relationships[i], out);
        proof {
            assert(l@.relationships[i as int] == l.relationships@[i as int]@);
            lemma_flat_step(l@.relationships, purpose_fn(), i as int);
            assert(findings_view(out@) =~= start + flat(l@.relationships.take(i + 1), purpose_fn()));
        }
        i += 1;
    }
    proof {
        lemma_flat_all(l@.relationships, purpose_fn());
    }
    let ghost a = findings_view(out@);
    let mut i: usize = 0;
    while i < l.containers.len()
        invariant
            i <= l.containers@.len(),
            findings_view(out@) == a + flat(l@.containers.take(i as int), container_ref_fn(l@)),
        decreases l.containers.len() - i,
    {
        check_container_ref(l, &l.containers[i], out);
        proof {
            assert(l@.containers[i as int] == l.containers@[i as int]@);
            lemma_flat_step(l@.containers, container_ref_fn(l@), i as int);
            assert(findings_view(out@) =~= a + flat(l@.containers.take(i + 1), container_ref_fn(l@)));
        }
        i += 1;
    }
    proof {
        lemma_flat_all(l@.containers, container_ref_fn(l@));
    }
    let ghost b = findings_view(out@);
    let mut i: usize = 0;
    while i < l.relationships.len()
        invariant
            i <= l.relationships@.len(),
            findings_view(out@) == b + flat(l@.relationships.take(i as int), relationship_refs_fn(l@)),
        decreases l.relationships.len() - i,
    {
        check_relationship_refs(l, &l.relationships[i], out);
        proof {
            assert(l@.relationships[i as int] == l.relationships@[i as int]@);
            lemma_flat_step(l@.relationships, relationship_refs_fn(l@), i as int);
            assert(findings_view(out@) =~= b + flat(l@.relationships.take(i + 1), relationship_refs_fn(l@)));
        }
        i += 1;
    }
    proof {
        lemma_flat_all(l@.relationships, relationship_refs_fn(l@));
        assert(findings_view(out@) =~= start + flat(l@.relationships, purpose_fn()) + logical_refs(l@));
    }
}


// ---- an environment ----

pub open spec fn has_instance_of(e: EnvironmentView, container: Seq<char>) -> bool {
    exists|k: int| 0 <= k < env_instances(e).len() && env_instances(e)[k].container == container
}

pub open spec fn has_landing_of(e: EnvironmentView, system: Seq<char>) -> bool {
    exists|k: int| 0 <= k < e.systems.len() && e.systems[k].system == system
}

/// L001: a service with no instance in the environment.
pub open spec fn container_realized(e: EnvironmentView, c: ContainerView) -> Seq<FindingView> {
    when(!has_instance_of(e, c.id), fv(Rule::L001, Some(e.id), c.id, None,
        "服務 "@ + c.slug + " 在環境 "@ + e.slug + " 沒有任何 Instance"@))
}

pub open spec fn container_realized_fn(e: EnvironmentView) -> spec_fn(ContainerView) -> Seq<FindingView> {
    |c: ContainerView| container_realized(e, c)
}

/// L001: an external system that does not land in the environment.
pub open spec fn system_realized(e: EnvironmentView, s: SoftwareSystemView) -> Seq<FindingView> {
    when(!has_landing_of(e, s.id), fv(Rule::L001, Some(e.id), s.id, None,
        "外部系統 "@ + s.slug + " 在環境 "@ + e.slug + " 沒有指定位址"@))
}

pub open spec fn system_realized_fn(e: EnvironmentView) -> spec_fn(SoftwareSystemView) -> Seq<FindingView> {
    |s: SoftwareSystemView| system_realized(e, s)
}

pub open spec fn realized(l: LogicalView, e: EnvironmentView) -> Seq<FindingView> {
    flat(l.containers, container_realized_fn(e)) + flat(crate::logical::external_of(l), system_realized_fn(e))
}

/// Whether some endpoint realises this endpoint definition.
pub open spec fn has_def_endpoint(eps: Seq<EndpointView>, def: Seq<char>) -> bool {
    exists|k: int| 0 <= k < eps.len() && eps[k].def == Some(def)
}

pub open spec fn has_endpoint_id(eps: Seq<EndpointView>, id: Seq<char>) -> bool {
    exists|k: int| 0 <= k < eps.len() && eps[k].id == id
}

/// L003: an instance that lacks the endpoint a connection end names.
pub open spec fn instance_endpoint(e: EnvironmentView, conn: Seq<char>, end: ConnectionEnd, i: ContainerInstanceView, endpoint: Option<Seq<char>>) -> Seq<FindingView> {
    match endpoint {
        Some(want) => when(!has_def_endpoint(i.endpoints, want), fv(Rule::L003, Some(e.id), conn, Some(end),
            "Instance "@ + i.slug + " 上沒有對應 EndpointDef "@ + want + " 的 Endpoint"@)),
        None => seq![],
    }
}

pub open spec fn instance_endpoint_fn(e: EnvironmentView, conn: Seq<char>, end: ConnectionEnd, endpoint: Option<Seq<char>>) -> spec_fn(ContainerInstanceView) -> Seq<FindingView> {
    |i: ContainerInstanceView| instance_endpoint(e, conn, end, i, endpoint)
}

pub open spec fn within_finding(e: EnvironmentView, conn: Seq<char>, end: ConnectionEnd, within: Option<Seq<char>>) -> Seq<FindingView> {
    match within {
        Some(node) => when(!crate::index::forest_node_ids(e.nodes).contains(node), fv(Rule::L003, Some(e.id), conn, Some(end),
            "within 指向不存在的部署節點 "@ + node)),
        None => seq![],
    }
}

/// L005 without `expect`; L004 when the count differs.
pub open spec fn expect_finding(e: EnvironmentView, conn: Seq<char>, end: ConnectionEnd, pattern: Seq<char>, within: Option<Seq<char>>, expect: Option<u32>) -> Seq<FindingView> {
    let n = matching(e, pattern, within).len();
    match expect {
        None => seq![fv(Rule::L005, Some(e.id), conn, Some(end), "萬用字元 "@ + pattern + " 沒有註明 expect 期望數量"@)],
        Some(want) => when(want != n, fv(Rule::L004, Some(e.id), conn, Some(end), match within {
            Some(node) => "萬用字元 "@ + pattern + "（限定在 "@ + node + " 底下）期望 "@ + decimal(want as nat) + " 個，實際符合 "@
                + decimal(n) + " 個"@,
            None => "萬用字元 "@ + pattern + " 期望 "@ + decimal(want as nat) + " 個，實際符合 "@ + decimal(n) + " 個"@,
        })),
    }
}

/// What one end of a connection points at that is missing.
pub open spec fn endpointing_findings(e: EnvironmentView, conn: Seq<char>, end: ConnectionEnd, side: EndpointingView) -> Seq<FindingView> {
    match side {
        EndpointingView::Instance { target, endpoint } => match target {
            InstanceRefView::One(id) => match crate::reconcile::last_index(crate::environment::instance_ids(env_instances(e)), id) {
                Some(k) => instance_endpoint(e, conn, end, env_instances(e)[k], endpoint),
                None => seq![fv(Rule::L003, Some(e.id), conn, Some(end), "連線指向不存在的 Instance "@ + id)],
            },
            InstanceRefView::Pattern { slug_pattern, within, expect } => within_finding(e, conn, end, within)
                + expect_finding(e, conn, end, slug_pattern, within, expect)
                + flat(matching(e, slug_pattern, within), instance_endpoint_fn(e, conn, end, endpoint)),
        },
        EndpointingView::Infra { node, endpoint } => match first_index(crate::environment::infra_ids(e), node) {
            Some(k) => match endpoint {
                Some(want) => when(!has_endpoint_id(e.infra[k].endpoints, want), fv(Rule::L003, Some(e.id), conn, Some(end),
                    "設備 "@ + e.infra[k].slug + " 上沒有 Endpoint "@ + want)),
                None => seq![],
            },
            None => seq![fv(Rule::L003, Some(e.id), conn, Some(end), "連線指向不存在的設備 "@ + node)],
        },
        EndpointingView::Person { .. } => seq![],
        EndpointingView::System { instance, endpoint } => match first_index(crate::environment::system_instance_ids(e), instance) {
            Some(k) => match endpoint {
                Some(want) => when(!has_def_endpoint(e.systems[k].endpoints, want), fv(Rule::L003, Some(e.id), conn, Some(end),
                    "外部系統 "@ + e.systems[k].slug + " 上沒有對應 EndpointDef "@ + want + " 的 Endpoint"@)),
                None => seq![],
            },
            None => seq![fv(Rule::L003, Some(e.id), conn, Some(end), "連線指向不存在的外部系統實體 "@ + instance)],
        },
    }
}

/// L003 for a person end that names nobody, then what the end points at.
pub open spec fn side_findings(l: LogicalView, e: EnvironmentView, conn: Seq<char>, end: ConnectionEnd, side: EndpointingView) -> Seq<FindingView> {
    person_finding(l, e, conn, end, side) + endpointing_findings(e, conn, end, side)
}

pub open spec fn person_finding(l: LogicalView, e: EnvironmentView, conn: Seq<char>, end: ConnectionEnd, side: EndpointingView) -> Seq<FindingView> {
    match side {
        EndpointingView::Person { person } => when(!person_ids(l).contains(person), fv(Rule::L003, Some(e.id), conn, Some(end),
            "連線指向不存在的 Person "@ + person)),
        _ => seq![],
    }
}

/// L007, L003, L004 and L005 on one connection.
pub open spec fn connection_findings(l: LogicalView, e: EnvironmentView, c: ConnectionView) -> Seq<FindingView> {
    when(blank(c.purpose), fv(Rule::L007, Some(e.id), c.id, None, "連線沒有填用途"@))
        + when(!relationship_ids(l).contains(c.serves), fv(Rule::L003, Some(e.id), c.id, None, "連線指向不存在的邏輯連線 "@ + c.serves))
        + side_findings(l, e, c.id, ConnectionEnd::From, c.from)
        + side_findings(l, e, c.id, ConnectionEnd::To, c.to)
}

pub open spec fn connection_findings_fn(l: LogicalView, e: EnvironmentView) -> spec_fn(ConnectionView) -> Seq<FindingView> {
    |c: ConnectionView| connection_findings(l, e, c)
}

/// L006: an endpoint with no address.
pub open spec fn address_finding(e: EnvironmentView, owner: Seq<char>, ep: EndpointView) -> Seq<FindingView> {
    when(ep.address is None, fv(Rule::L006, Some(e.id), ep.id, None, owner + "／"@ + ep.slug + " 缺少位址"@))
}

pub open spec fn address_fn(e: EnvironmentView, owner: Seq<char>) -> spec_fn(EndpointView) -> Seq<FindingView> {
    |ep: EndpointView| address_finding(e, owner, ep)
}

pub open spec fn instance_addresses_fn(e: EnvironmentView) -> spec_fn(ContainerInstanceView) -> Seq<FindingView> {
    |i: ContainerInstanceView| flat(i.endpoints, address_fn(e, i.slug))
}

pub open spec fn infra_addresses_fn(e: EnvironmentView) -> spec_fn(InfrastructureNodeView) -> Seq<FindingView> {
    |n: InfrastructureNodeView| flat(n.endpoints, address_fn(e, n.slug))
}

pub open spec fn system_addresses_fn(e: EnvironmentView) -> spec_fn(SoftwareSystemInstanceView) -> Seq<FindingView> {
    |s: SoftwareSystemInstanceView| flat(s.endpoints, address_fn(e, s.slug))
}

pub open spec fn addresses(e: EnvironmentView) -> Seq<FindingView> {
    flat(env_instances(e), instance_addresses_fn(e)) + flat(e.infra, infra_addresses_fn(e)) + flat(e.systems, system_addresses_fn(e))
}

/// L012 on an endpoint whose definition is not among its owner's.
pub open spec fn def_finding(e: EnvironmentView, owner: Seq<char>, defs: Seq<EndpointDefView>, ep: EndpointView) -> Seq<FindingView> {
    match ep.def {
        Some(d) => when(!def_ids(defs).contains(d), fv(Rule::L012, Some(e.id), ep.id, None,
            owner + "／"@ + ep.slug + " 指向不存在的接點定義 "@ + d)),
        None => seq![],
    }
}

pub open spec fn def_fn(e: EnvironmentView, owner: Seq<char>, defs: Seq<EndpointDefView>) -> spec_fn(EndpointView) -> Seq<FindingView> {
    |ep: EndpointView| def_finding(e, owner, defs, ep)
}

/// L012 on an instance: its service does not exist, or an endpoint's definition does not.
pub open spec fn instance_ref(l: LogicalView, e: EnvironmentView, i: ContainerInstanceView) -> Seq<FindingView> {
    match first_index(container_ids(l), i.container) {
        Some(k) => flat(i.endpoints, def_fn(e, i.slug, l.containers[k].endpoints)),
        None => seq![fv(Rule::L012, Some(e.id), i.id, None, "服務實體 "@ + i.slug + " 指向不存在的服務 "@ + i.container)],
    }
}

pub open spec fn instance_ref_fn(l: LogicalView, e: EnvironmentView) -> spec_fn(ContainerInstanceView) -> Seq<FindingView> {
    |i: ContainerInstanceView| instance_ref(l, e, i)
}

/// L012 on an external-system landing.
pub open spec fn landing_ref(l: LogicalView, e: EnvironmentView, s: SoftwareSystemInstanceView) -> Seq<FindingView> {
    match first_index(system_ids(l), s.system) {
        Some(k) => flat(s.endpoints, def_fn(e, s.slug, l.systems[k].endpoints)),
        None => seq![fv(Rule::L012, Some(e.id), s.id, None, "服務實體 "@ + s.slug + " 指向不存在的外部系統 "@ + s.system)],
    }
}

pub open spec fn landing_ref_fn(l: LogicalView, e: EnvironmentView) -> spec_fn(SoftwareSystemInstanceView) -> Seq<FindingView> {
    |s: SoftwareSystemInstanceView| landing_ref(l, e, s)
}

pub open spec fn environment_refs(l: LogicalView, e: EnvironmentView) -> Seq<FindingView> {
    flat(env_instances(e), instance_ref_fn(l, e)) + flat(e.systems, landing_ref_fn(l, e))
}

/// The names of an environment in the order names are resolved: instances, devices,
/// external-system landings. Each with its kind and id.
pub open spec fn names(e: EnvironmentView) -> Seq<(Seq<char>, Seq<char>, Seq<char>)> {
    env_instances(e).map_values(|i: ContainerInstanceView| (i.slug, "服務實體"@, i.id))
        + e.infra.map_values(|n: InfrastructureNodeView| (n.slug, "設備"@, n.id))
        + e.systems.map_values(|s: SoftwareSystemInstanceView| (s.slug, "外部系統實體"@, s.id))
}

pub open spec fn name_slugs(s: Seq<(Seq<char>, Seq<char>, Seq<char>)>) -> Seq<Seq<char>> {
    s.map_values(|x: (Seq<char>, Seq<char>, Seq<char>)| x.0)
}

/// L014 on a name that an earlier one already took; the earlier one wins.
pub open spec fn collision_at(e: EnvironmentView, prior: Seq<(Seq<char>, Seq<char>, Seq<char>)>, x: (Seq<char>, Seq<char>, Seq<char>)) -> Seq<FindingView> {
    match first_index(name_slugs(prior), x.0) {
        Some(j) => seq![fv(Rule::L014, Some(e.id), x.2, None,
            "環境 "@ + e.slug + " 裡有兩個東西叫 "@ + x.0 + "：這個"@ + x.1 + "，以及一個"@ + prior[j].1
                + "。用名字指涉時會指到那個"@ + prior[j].1 + "，這個"@ + x.1 + "指不到——改一個名字。"@)],
        None => seq![],
    }
}

pub open spec fn collisions_of(e: EnvironmentView, s: Seq<(Seq<char>, Seq<char>, Seq<char>)>) -> Seq<FindingView>
    decreases s.len(),
{
    if s.len() == 0 {
        seq![]
    } else {
        collisions_of(e, s.drop_last()) + collision_at(e, s.drop_last(), s.last())
    }
}


fn any_instance_of(all: &Vec<&ContainerInstance>, container: &Id) -> (r: bool)
    ensures
        r == (exists|k: int| 0 <= k < all@.len() && all@[k]@.container == container@),
{
    let mut i: usize = 0;
    while i < all.len()
        invariant
            i <= all@.len(),
            forall|j: int| 0 <= j < i ==> all@[j]@.container != container@,
        decreases all.len() - i,
    {
        if all[i].container.same(container) {
            return true;
        }
        i += 1;
    }
    false
}

fn any_landing_of(e: &Environment, system: &Id) -> (r: bool)
    ensures
        r == has_landing_of(e@, system@),
{
    let mut i: usize = 0;
    while i < e.systems.len()
        invariant
            i <= e.systems@.len(),
            forall|j: int| 0 <= j < i ==> e.systems@[j].system@ != system@,
        decreases e.systems.len() - i,
    {
        if e.systems[i].system.same(system) {
            assert(e@.systems[i as int].system == system@);
            return true;
        }
        i += 1;
    }
    proof {
        if has_landing_of(e@, system@) {
            let k = choose|k: int| 0 <= k < e@.systems.len() && e@.systems[k].system == system@;
            assert(e.systems@[k].system@ == system@);
        }
    }
    false
}

fn check_realized(l: &Logical, e: &Environment, all: &Vec<&ContainerInstance>, out: &mut Vec<Finding>)
    requires
        instance_refs_view(all@) == env_instances(e@),
    ensures
        findings_view(final(out)@) == findings_view(old(out)@) + realized(l@, e@),
{
    let ghost start = findings_view(out@);
    let mut i: usize = 0;
    while i < l.containers.len()
        invariant
            i <= l.containers@.len(),
            instance_refs_view(all@) == env_instances(e@),
            findings_view(out@) == start + flat(l@.containers.take(i as int), container_realized_fn(e@)),
        decreases l.containers.len() - i,
    {
        let c = &l.containers[i];
        let ghost mid = findings_view(out@);
        let found = any_instance_of(all, &c.id);
        proof {
            if found {
                let k = choose|k: int| 0 <= k < all@.len() && all@[k]@.container == c.id@;
                assert(env_instances(e@)[k] == all@[k]@);
            } else {
                assert forall|k: int| 0 <= k < env_instances(e@).len() implies env_instances(e@)[k].container != c.id@ by {
                    assert(env_instances(e@)[k] == all@[k]@);
                }
            }
        }
        if !found {
            let mut d = "服務 ".to_string();
            d.append(c.slug.as_str());
            d.append(" 在環境 ");
            d.append(e.slug.as_str());
            d.append(" 沒有任何 Instance");
            emit(out, finding(Rule::L001, Some(&e.id), &c.id, None, d));
        }
        proof {
            assert(l@.containers[i as int] == c@);
            assert(findings_view(out@) =~= mid + container_realized(e@, c@));
            lemma_flat_step(l@.containers, container_realized_fn(e@), i as int);
            assert(findings_view(out@) =~= start + flat(l@.containers.take(i + 1), container_realized_fn(e@)));
        }
        i += 1;
    }
    proof {
        lemma_flat_all(l@.containers, container_realized_fn(e@));
    }
    let ghost a = findings_view(out@);
    let ext = l.external_systems();
    let ghost xs = crate::logical::external_of(l@);
    let mut i: usize = 0;
    while i < ext.len()
        invariant
            i <= ext@.len(),
            xs == crate::logical::external_of(l@),
            ext@.map_values(|s: &SoftwareSystem| s@) == xs,
            findings_view(out@) == a + flat(xs.take(i as int), system_realized_fn(e@)),
        decreases ext.len() - i,
    {
        let sys = ext[i];
        let ghost mid = findings_view(out@);
        if !any_landing_of(e, &sys.id) {
            let mut d = "外部系統 ".to_string();
            d.append(sys.slug.as_str());
            d.append(" 在環境 ");
            d.append(e.slug.as_str());
            d.append(" 沒有指定位址");
            emit(out, finding(Rule::L001, Some(&e.id), &sys.id, None, d));
        }
        proof {
            assert(xs[i as int] == sys@);
            assert(findings_view(out@) =~= mid + system_realized(e@, sys@));
            lemma_flat_step(xs, system_realized_fn(e@), i as int);
            assert(findings_view(out@) =~= a + flat(xs.take(i + 1), system_realized_fn(e@)));
        }
        i += 1;
    }
    proof {
        lemma_flat_all(xs, system_realized_fn(e@));
        assert(findings_view(out@) =~= start + realized(l@, e@));
    }
}

fn any_def_endpoint(eps: &Vec<Endpoint>, def: &Id) -> (r: bool)
    ensures
        r == has_def_endpoint(crate::environment::endpoints_view(eps@), def@),
{
    let mut i: usize = 0;
    while i < eps.len()
        invariant
            i <= eps@.len(),
            forall|j: int| 0 <= j < i ==> opt_id_view(eps@[j].def) != Some(def@),
        decreases eps.len() - i,
    {
        let hit = match &eps[i].def {
            Some(d) => d.same(def),
            None => false,
        };
        if hit {
            assert(crate::environment::endpoints_view(eps@)[i as int].def == Some(def@));
            return true;
        }
        i += 1;
    }
    proof {
        let v = crate::environment::endpoints_view(eps@);
        if has_def_endpoint(v, def@) {
            let k = choose|k: int| 0 <= k < v.len() && v[k].def == Some(def@);
            assert(v[k] == eps@[k]@);
        }
    }
    false
}

fn any_endpoint_id(eps: &Vec<Endpoint>, id: &Id) -> (r: bool)
    ensures
        r == has_endpoint_id(crate::environment::endpoints_view(eps@), id@),
{
    let mut i: usize = 0;
    while i < eps.len()
        invariant
            i <= eps@.len(),
            forall|j: int| 0 <= j < i ==> eps@[j].id@ != id@,
        decreases eps.len() - i,
    {
        if eps[i].id.same(id) {
            assert(crate::environment::endpoints_view(eps@)[i as int].id == id@);
            return true;
        }
        i += 1;
    }
    proof {
        let v = crate::environment::endpoints_view(eps@);
        if has_endpoint_id(v, id@) {
            let k = choose|k: int| 0 <= k < v.len() && v[k].id == id@;
            assert(v[k] == eps@[k]@);
        }
    }
    false
}

fn check_instance_endpoint(e: &Environment, conn: &Id, end: ConnectionEnd, i: &ContainerInstance, endpoint: &Option<Id>, out: &mut Vec<Finding>)
    ensures
        findings_view(final(out)@) == findings_view(old(out)@) + instance_endpoint(e@, conn@, end, i@, opt_id_view(*endpoint)),
{
    match endpoint {
        Some(want) => {
            if !any_def_endpoint(&i.endpoints, want) {
                let mut d = "Instance ".to_string();
                d.append(i.slug.as_str());
                d.append(" 上沒有對應 EndpointDef ");
                d.append(want.as_str());
                d.append(" 的 Endpoint");
                emit(out, finding(Rule::L003, Some(&e.id), conn, Some(end), d));
            } else {
                assert(findings_view(out@) =~= findings_view(out@) + seq![]);
            }
        },
        None => {
            assert(findings_view(out@) =~= findings_view(out@) + seq![]);
        },
    }
}

fn check_expect(index: &EnvIndex, e: &Environment, conn: &Id, end: ConnectionEnd, pattern: &String, within: &Option<Id>, expect: Option<u32>, count: usize, out: &mut Vec<Finding>)
    requires
        index.env_view() == e@,
        count == matching(e@, pattern@, opt_id_view(*within)).len(),
    ensures
        findings_view(final(out)@) == findings_view(old(out)@) + within_finding(e@, conn@, end, opt_id_view(*within))
            + expect_finding(e@, conn@, end, pattern@, opt_id_view(*within), expect),
{
    let ghost start = findings_view(out@);
    match within {
        Some(node) => {
            if !index.knows_node(node) {
                let mut d = "within 指向不存在的部署節點 ".to_string();
                d.append(node.as_str());
                emit(out, finding(Rule::L003, Some(&e.id), conn, Some(end), d));
            }
        },
        None => {},
    }
    assert(findings_view(out@) =~= start + within_finding(e@, conn@, end, opt_id_view(*within)));
    let ghost mid = findings_view(out@);
    match expect {
        None => {
            let mut d = "萬用字元 ".to_string();
            d.append(pattern.as_str());
            d.append(" 沒有註明 expect 期望數量");
            emit(out, finding(Rule::L005, Some(&e.id), conn, Some(end), d));
        },
        Some(want) => {
            if want as usize != count {
                let w = decimal_text(want as u64);
                let n = decimal_text(count as u64);
                let mut d = "萬用字元 ".to_string();
                d.append(pattern.as_str());
                match within {
                    Some(node) => {
                        d.append("（限定在 ");
                        d.append(node.as_str());
                        d.append(" 底下）期望 ");
                    },
                    None => {
                        d.append(" 期望 ");
                    },
                }
                d.append(w.as_str());
                d.append(" 個，實際符合 ");
                d.append(n.as_str());
                d.append(" 個");
                emit(out, finding(Rule::L004, Some(&e.id), conn, Some(end), d));
            }
        },
    }
    assert(findings_view(out@) =~= mid + expect_finding(e@, conn@, end, pattern@, opt_id_view(*within), expect));
}

#[verifier::rlimit(50)]
fn check_endpointing(index: &EnvIndex, e: &Environment, conn: &Id, end: ConnectionEnd, side: &Endpointing, out: &mut Vec<Finding>)
    requires
        index.env_view() == e@,
    ensures
        findings_view(final(out)@) == findings_view(old(out)@) + endpointing_findings(e@, conn@, end, side@),
{
    let ghost start = findings_view(out@);
    match side {
        Endpointing::Instance { target, endpoint } => match target {
            InstanceRef::One(id) => match index.instance(id) {
                Some(found) => {
                    check_instance_endpoint(e, conn, end, found, endpoint, out);
                },
                None => {
                    let mut d = "連線指向不存在的 Instance ".to_string();
                    d.append(id.as_str());
                    emit(out, finding(Rule::L003, Some(&e.id), conn, Some(end), d));
                },
            },
            InstanceRef::Pattern { slug_pattern, within, expect } => {
                let matched = index.matching_within(slug_pattern.as_str(), within.as_ref());
                let ghost w = opt_id_view(*within);
                let ghost ms = matching(e@, slug_pattern@, w);
                let ghost ep = opt_id_view(*endpoint);
                assert(instance_refs_view(matched@) == ms);
                check_expect(index, e, conn, end, slug_pattern, within, *expect, matched.len(), out);
                let ghost a = findings_view(out@);
                let mut i: usize = 0;
                while i < matched.len()
                    invariant
                        i <= matched@.len(),
                        instance_refs_view(matched@) == ms,
                        ep == opt_id_view(*endpoint),
                        findings_view(out@) == a + flat(ms.take(i as int), instance_endpoint_fn(e@, conn@, end, ep)),
                    decreases matched.len() - i,
                {
                    let ghost mid = findings_view(out@);
                    check_instance_endpoint(e, conn, end, matched[i], endpoint, out);
                    proof {
                        assert(ms[i as int] == matched@[i as int]@);
                        lemma_flat_step(ms, instance_endpoint_fn(e@, conn@, end, ep), i as int);
                        assert(findings_view(out@) =~= a + flat(ms.take(i + 1), instance_endpoint_fn(e@, conn@, end, ep)));
                    }
                    i += 1;
                }
                proof {
                    lemma_flat_all(ms, instance_endpoint_fn(e@, conn@, end, ep));
                }
            },
        },
        Endpointing::Infra { node, endpoint } => match e.infra_node(node) {
            None => {
                let mut d = "連線指向不存在的設備 ".to_string();
                d.append(node.as_str());
                emit(out, finding(Rule::L003, Some(&e.id), conn, Some(end), d));
            },
            Some(found) => match endpoint {
                Some(want) => {
                    if !any_endpoint_id(&found.endpoints, want) {
                        let mut d = "設備 ".to_string();
                        d.append(found.slug.as_str());
                        d.append(" 上沒有 Endpoint ");
                        d.append(want.as_str());
                        emit(out, finding(Rule::L003, Some(&e.id), conn, Some(end), d));
                    }
                },
                None => {},
            },
        },
        Endpointing::Person { .. } => {},
        Endpointing::System { instance, endpoint } => match e.system_instance(instance) {
            None => {
                let mut d = "連線指向不存在的外部系統實體 ".to_string();
                d.append(instance.as_str());
                emit(out, finding(Rule::L003, Some(&e.id), conn, Some(end), d));
            },
            Some(found) => match endpoint {
                Some(want) => {
                    if !any_def_endpoint(&found.endpoints, want) {
                        let mut d = "外部系統 ".to_string();
                        d.append(found.slug.as_str());
                        d.append(" 上沒有對應 EndpointDef ");
                        d.append(want.as_str());
                        d.append(" 的 Endpoint");
                        emit(out, finding(Rule::L003, Some(&e.id), conn, Some(end), d));
                    }
                },
                None => {},
            },
        },
    }
    assert(findings_view(out@) =~= start + endpointing_findings(e@, conn@, end, side@));
}

fn check_side(l: &Logical, index: &EnvIndex, e: &Environment, conn: &Id, end: ConnectionEnd, side: &Endpointing, out: &mut Vec<Finding>)
    requires
        index.env_view() == e@,
    ensures
        findings_view(final(out)@) == findings_view(old(out)@) + side_findings(l@, e@, conn@, end, side@),
{
    let ghost start = findings_view(out@);
    match side {
        Endpointing::Person { person } => {
            if !has_person(l, person) {
                let mut d = "連線指向不存在的 Person ".to_string();
                d.append(person.as_str());
                emit(out, finding(Rule::L003, Some(&e.id), conn, Some(end), d));
            }
        },
        _ => {},
    }
    assert(findings_view(out@) =~= start + person_finding(l@, e@, conn@, end, side@));
    check_endpointing(index, e, conn, end, side, out);
    assert(findings_view(out@) =~= start + side_findings(l@, e@, conn@, end, side@));
}

fn check_connection(l: &Logical, index: &EnvIndex, e: &Environment, c: &crate::environment::Connection, out: &mut Vec<Finding>)
    requires
        index.env_view() == e@,
        index.logical_view() == l@,
    ensures
        findings_view(final(out)@) == findings_view(old(out)@) + connection_findings(l@, e@, c@),
{
    let ghost start = findings_view(out@);
    if is_blank(c.purpose.as_str()) {
        emit(out, finding(Rule::L007, Some(&e.id), &c.id, None, "連線沒有填用途".to_string()));
    }
    let ghost a = findings_view(out@);
    if !index.knows_relationship(&c.serves) {
        let mut d = "連線指向不存在的邏輯連線 ".to_string();
        d.append(c.serves.as_str());
        emit(out, finding(Rule::L003, Some(&e.id), &c.id, None, d));
    }
    let ghost b = findings_view(out@);
    check_side(l, index, e, &c.id, ConnectionEnd::From, &c.from, out);
    check_side(l, index, e, &c.id, ConnectionEnd::To, &c.to, out);
    proof {
        assert(a =~= start + when(blank(c@.purpose), fv(Rule::L007, Some(e@.id), c@.id, None, "連線沒有填用途"@)));
        assert(findings_view(out@) =~= start + connection_findings(l@, e@, c@));
    }
}

fn check_connections(l: &Logical, index: &EnvIndex, e: &Environment, out: &mut Vec<Finding>)
    requires
        index.env_view() == e@,
        index.logical_view() == l@,
    ensures
        findings_view(final(out)@) == findings_view(old(out)@) + flat(e@.connections, connection_findings_fn(l@, e@)),
{
    let ghost start = findings_view(out@);
    let mut i: usize = 0;
    while i < e.connections.len()
        invariant
            i <= e.connections@.len(),
            index.env_view() == e@,
            index.logical_view() == l@,
            findings_view(out@) == start + flat(e@.connections.take(i as int), connection_findings_fn(l@, e@)),
        decreases e.connections.len() - i,
    {
        check_connection(l, index, e, &e.connections[i], out);
        proof {
            assert(e@.connections[i as int] == e.connections@[i as int]@);
            lemma_flat_step(e@.connections, connection_findings_fn(l@, e@), i as int);
            assert(findings_view(out@) =~= start + flat(e@.connections.take(i + 1), connection_findings_fn(l@, e@)));
        }
        i += 1;
    }
    proof {
        lemma_flat_all(e@.connections, connection_findings_fn(l@, e@));
    }
}

fn check_addresses_of(e: &Environment, owner: &String, eps: &Vec<Endpoint>, out: &mut Vec<Finding>)
    ensures
        findings_view(final(out)@) == findings_view(old(out)@)
            + flat(crate::environment::endpoints_view(eps@), address_fn(e@, owner@)),
{
    let ghost start = findings_view(out@);
    let ghost v = crate::environment::endpoints_view(eps@);
    let mut i: usize = 0;
    while i < eps.len()
        invariant
            i <= eps@.len(),
            v == crate::environment::endpoints_view(eps@),
            findings_view(out@) == start + flat(v.take(i as int), address_fn(e@, owner@)),
        decreases eps.len() - i,
    {
        let ghost mid = findings_view(out@);
        let ep = &eps[i];
        if ep.address.is_none() {
            let mut d = owner.clone();
            d.append("／");
            d.append(ep.slug.as_str());
            d.append(" 缺少位址");
            emit(out, finding(Rule::L006, Some(&e.id), &ep.id, None, d));
        }
        proof {
            assert(v[i as int] == ep@);
            assert(findings_view(out@) =~= mid + address_finding(e@, owner@, ep@));
            lemma_flat_step(v, address_fn(e@, owner@), i as int);
            assert(findings_view(out@) =~= start + flat(v.take(i + 1), address_fn(e@, owner@)));
        }
        i += 1;
    }
    proof {
        lemma_flat_all(v, address_fn(e@, owner@));
    }
}

fn check_addresses(e: &Environment, all: &Vec<&ContainerInstance>, out: &mut Vec<Finding>)
    requires
        instance_refs_view(all@) == env_instances(e@),
    ensures
        findings_view(final(out)@) == findings_view(old(out)@) + addresses(e@),
{
    let ghost start = findings_view(out@);
    let ghost xs = env_instances(e@);
    let mut i: usize = 0;
    while i < all.len()
        invariant
            i <= all@.len(),
            xs == env_instances(e@),
            instance_refs_view(all@) == xs,
            findings_view(out@) == start + flat(xs.take(i as int), instance_addresses_fn(e@)),
        decreases all.len() - i,
    {
        check_addresses_of(e, &all[i].slug, &all[i].endpoints, out);
        proof {
            assert(xs[i as int] == all@[i as int]@);
            lemma_flat_step(xs, instance_addresses_fn(e@), i as int);
            assert(findings_view(out@) =~= start + flat(xs.take(i + 1), instance_addresses_fn(e@)));
        }
        i += 1;
    }
    proof {
        lemma_flat_all(xs, instance_addresses_fn(e@));
    }
    let ghost a = findings_view(out@);
    let mut i: usize = 0;
    while i < e.infra.len()
        invariant
            i <= e.infra@.len(),
            findings_view(out@) == a + flat(e@.infra.take(i as int), infra_addresses_fn(e@)),
        decreases e.infra.len() - i,
    {
        check_addresses_of(e, &e.infra[i].slug, &e.infra[i].endpoints, out);
        proof {
            assert(e@.infra[i as int] == e.infra@[i as int]@);
            lemma_flat_step(e@.infra, infra_addresses_fn(e@), i as int);
            assert(findings_view(out@) =~= a + flat(e@.infra.take(i + 1), infra_addresses_fn(e@)));
        }
        i += 1;
    }
    proof {
        lemma_flat_all(e@.infra, infra_addresses_fn(e@));
    }
    let ghost b = findings_view(out@);
    let mut i: usize = 0;
    while i < e.systems.len()
        invariant
            i <= e.systems@.len(),
            findings_view(out@) == b + flat(e@.systems.take(i as int), system_addresses_fn(e@)),
        decreases e.systems.len() - i,
    {
        check_addresses_of(e, &e.systems[i].slug, &e.systems[i].endpoints, out);
        proof {
            assert(e@.systems[i as int] == e.systems@[i as int]@);
            lemma_flat_step(e@.systems, system_addresses_fn(e@), i as int);
            assert(findings_view(out@) =~= b + flat(e@.systems.take(i + 1), system_addresses_fn(e@)));
        }
        i += 1;
    }
    proof {
        lemma_flat_all(e@.systems, system_addresses_fn(e@));
        assert(findings_view(out@) =~= start + addresses(e@));
    }
}

fn check_defs(e: &Environment, owner: &String, defs: &Vec<EndpointDef>, eps: &Vec<Endpoint>, out: &mut Vec<Finding>)
    ensures
        findings_view(final(out)@) == findings_view(old(out)@)
            + flat(crate::environment::endpoints_view(eps@), def_fn(e@, owner@, defs_view(defs@))),
{
    let ghost start = findings_view(out@);
    let ghost v = crate::environment::endpoints_view(eps@);
    let ghost f = def_fn(e@, owner@, defs_view(defs@));
    let mut i: usize = 0;
    while i < eps.len()
        invariant
            i <= eps@.len(),
            v == crate::environment::endpoints_view(eps@),
            f == def_fn(e@, owner@, defs_view(defs@)),
            findings_view(out@) == start + flat(v.take(i as int), f),
        decreases eps.len() - i,
    {
        let ghost mid = findings_view(out@);
        let ep = &eps[i];
        match &ep.def {
            Some(d) => {
                if !has_def(defs, d) {
                    let mut t = owner.clone();
                    t.append("／");
                    t.append(ep.slug.as_str());
                    t.append(" 指向不存在的接點定義 ");
                    t.append(d.as_str());
                    emit(out, finding(Rule::L012, Some(&e.id), &ep.id, None, t));
                }
            },
            None => {},
        }
        proof {
            assert(v[i as int] == ep@);
            assert(findings_view(out@) =~= mid + def_finding(e@, owner@, defs_view(defs@), ep@));
            lemma_flat_step(v, f, i as int);
            assert(findings_view(out@) =~= start + flat(v.take(i + 1), f));
        }
        i += 1;
    }
    proof {
        lemma_flat_all(v, f);
    }
}

fn check_environment_refs(l: &Logical, e: &Environment, out: &mut Vec<Finding>)
    ensures
        findings_view(final(out)@) == findings_view(old(out)@) + environment_refs(l@, e@),
{
    let ghost start = findings_view(out@);
    let all = e.instances();
    let ghost xs = env_instances(e@);
    let mut i: usize = 0;
    while i < all.len()
        invariant
            i <= all@.len(),
            xs == env_instances(e@),
            instance_refs_view(all@) == xs,
            findings_view(out@) == start + flat(xs.take(i as int), instance_ref_fn(l@, e@)),
        decreases all.len() - i,
    {
        let inst = all[i];
        let ghost mid = findings_view(out@);
        match l.container(&inst.container) {
            None => {
                let mut d = "服務實體 ".to_string();
                d.append(inst.slug.as_str());
                d.append(" 指向不存在的服務 ");
                d.append(inst.container.as_str());
                emit(out, finding(Rule::L012, Some(&e.id), &inst.id, None, d));
            },
            Some(c) => {
                check_defs(e, &inst.slug, &c.endpoints, &inst.endpoints, out);
            },
        }
        proof {
            assert(xs[i as int] == inst@);
            assert(findings_view(out@) =~= mid + instance_ref(l@, e@, inst@));
            lemma_flat_step(xs, instance_ref_fn(l@, e@), i as int);
            assert(findings_view(out@) =~= start + flat(xs.take(i + 1), instance_ref_fn(l@, e@)));
        }
        i += 1;
    }
    proof {
        lemma_flat_all(xs, instance_ref_fn(l@, e@));
    }
    let ghost a = findings_view(out@);
    let mut i: usize = 0;
    while i < e.systems.len()
        invariant
            i <= e.systems@.len(),
            findings_view(out@) == a + flat(e@.systems.take(i as int), landing_ref_fn(l@, e@)),
        decreases e.systems.len() - i,
    {
        let si = &e.systems[i];
        let ghost mid = findings_view(out@);
        match l.system(&si.system) {
            None => {
                let mut d = "服務實體 ".to_string();
                d.append(si.slug.as_str());
                d.append(" 指向不存在的外部系統 ");
                d.append(si.system.as_str());
                emit(out, finding(Rule::L012, Some(&e.id), &si.id, None, d));
            },
            Some(sys) => {
                check_defs(e, &si.slug, &sys.endpoints, &si.endpoints, out);
            },
        }
        proof {
            assert(e@.systems[i as int] == si@);
            assert(findings_view(out@) =~= mid + landing_ref(l@, e@, si@));
            lemma_flat_step(e@.systems, landing_ref_fn(l@, e@), i as int);
            assert(findings_view(out@) =~= a + flat(e@.systems.take(i + 1), landing_ref_fn(l@, e@)));
        }
        i += 1;
    }
    proof {
        lemma_flat_all(e@.systems, landing_ref_fn(l@, e@));
        assert(findings_view(out@) =~= start + environment_refs(l@, e@));
    }
}

pub open spec fn name_entries_view(s: Seq<(String, &'static str, Id)>) -> Seq<(Seq<char>, Seq<char>, Seq<char>)> {
    s.map_values(|x: (String, &'static str, Id)| (x.0@, x.1@, x.2@))
}

fn check_collisions(e: &Environment, out: &mut Vec<Finding>)
    ensures
        findings_view(final(out)@) == findings_view(old(out)@) + collisions_of(e@, names(e@)),
{
    let all = e.instances();
    let mut ordered: Vec<(String, &'static str, Id)> = Vec::new();
    let ghost ns = names(e@);
    let ghost part1 = env_instances(e@).map_values(|i: ContainerInstanceView| (i.slug, "服務實體"@, i.id));
    let ghost part2 = e@.infra.map_values(|n: InfrastructureNodeView| (n.slug, "設備"@, n.id));
    let ghost part3 = e@.systems.map_values(|s: SoftwareSystemInstanceView| (s.slug, "外部系統實體"@, s.id));
    let mut i: usize = 0;
    while i < all.len()
        invariant
            i <= all@.len(),
            instance_refs_view(all@) == env_instances(e@),
            part1 == env_instances(e@).map_values(|i: ContainerInstanceView| (i.slug, "服務實體"@, i.id)),
            name_entries_view(ordered@) == part1.take(i as int),
        decreases all.len() - i,
    {
        let ghost before = ordered@;
        ordered.push((all[i].slug.clone(), "服務實體", all[i].id.copy()));
        proof {
            assert(name_entries_view(ordered@) =~= name_entries_view(before).push(part1[i as int]));
            assert(part1.take(i + 1) =~= part1.take(i as int).push(part1[i as int]));
        }
        i += 1;
    }
    assert(part1.take(i as int) =~= part1);
    let mut i: usize = 0;
    while i < e.infra.len()
        invariant
            i <= e.infra@.len(),
            part2 == e@.infra.map_values(|n: InfrastructureNodeView| (n.slug, "設備"@, n.id)),
            name_entries_view(ordered@) == part1 + part2.take(i as int),
        decreases e.infra.len() - i,
    {
        let ghost before = ordered@;
        ordered.push((e.infra[i].slug.clone(), "設備", e.infra[i].id.copy()));
        proof {
            assert(e@.infra[i as int] == e.infra@[i as int]@);
            assert(name_entries_view(ordered@) =~= name_entries_view(before).push(part2[i as int]));
            assert(part2.take(i + 1) =~= part2.take(i as int).push(part2[i as int]));
        }
        i += 1;
    }
    assert(part2.take(i as int) =~= part2);
    let mut i: usize = 0;
    while i < e.systems.len()
        invariant
            i <= e.systems@.len(),
            part3 == e@.systems.map_values(|s: SoftwareSystemInstanceView| (s.slug, "外部系統實體"@, s.id)),
            name_entries_view(ordered@) == part1 + part2 + part3.take(i as int),
        decreases e.systems.len() - i,
    {
        let ghost before = ordered@;
        ordered.push((e.systems[i].slug.clone(), "外部系統實體", e.systems[i].id.copy()));
        proof {
            assert(e@.systems[i as int] == e.systems@[i as int]@);
            assert(name_entries_view(ordered@) =~= name_entries_view(before).push(part3[i as int]));
            assert(part3.take(i + 1) =~= part3.take(i as int).push(part3[i as int]));
        }
        i += 1;
    }
    assert(part3.take(i as int) =~= part3);
    assert(name_entries_view(ordered@) == ns);
    let ghost start = findings_view(out@);
    let mut k: usize = 0;
    while k < ordered.len()
        invariant
            k <= ordered@.len(),
            name_entries_view(ordered@) == ns,
            findings_view(out@) == start + collisions_of(e@, ns.take(k as int)),
        decreases ordered.len() - k,
    {
        let ghost prior = ns.take(k as int);
        proof {
            lemma_first_index(name_slugs(prior), ns[k as int].0);
        }
        let mut j: usize = 0;
        while j < k && !text_eq(ordered[j].0.as_str(), ordered[k].0.as_str())
            invariant
                j <= k,
                k < ordered@.len(),
                name_entries_view(ordered@) == ns,
                prior == ns.take(k as int),
                forall|m: int| 0 <= m < j ==> name_slugs(prior)[m] != ns[k as int].0,
            decreases k - j,
        {
            assert(name_slugs(prior)[j as int] == ordered@[j as int].0@);
            j += 1;
        }
        let ghost mid = findings_view(out@);
        if j < k {
            proof {
                assert(name_slugs(prior)[j as int] == ns[k as int].0);
                lemma_first_index_unique(name_slugs(prior), ns[k as int].0, j as int);
            }
            let winner = ordered[j].1;
            let mut d = "環境 ".to_string();
            d.append(e.slug.as_str());
            d.append(" 裡有兩個東西叫 ");
            d.append(ordered[k].0.as_str());
            d.append("：這個");
            d.append(ordered[k].1);
            d.append("，以及一個");
            d.append(winner);
            d.append("。用名字指涉時會指到那個");
            d.append(winner);
            d.append("，這個");
            d.append(ordered[k].1);
            d.append("指不到——改一個名字。");
            emit(out, finding(Rule::L014, Some(&e.id), &ordered[k].2, None, d));
        } else {
            proof {
                assert(first_index(name_slugs(prior), ns[k as int].0) is None) by {
                    if first_index(name_slugs(prior), ns[k as int].0) is Some {
                        let m = first_index(name_slugs(prior), ns[k as int].0).unwrap();
                        assert(name_slugs(prior)[m] == ns[k as int].0);
                    }
                }
            }
        }
        proof {
            assert(ns.take(k + 1).drop_last() =~= prior);
            assert(ns.take(k + 1).last() == ns[k as int]);
            assert(findings_view(out@) =~= mid + collision_at(e@, prior, ns[k as int]));
            assert(findings_view(out@) =~= start + collisions_of(e@, ns.take(k + 1)));
        }
        k += 1;
    }
    assert(ns.take(k as int) =~= ns);
}


// ---- reachability ----

/// A point of the connection graph in which reachability is walked.
pub enum GraphPoint {
    Instance(Seq<char>),
    Infra(Seq<char>),
    System(Seq<char>),
    /// A person: only ever the start of a path.
    Person(Seq<char>),
}

/// A point of the connection graph, as computed.
pub enum GraphNode {
    Instance(Id),
    Infra(Id),
    System(Id),
    Person(Id),
}

impl View for GraphNode {
    type V = GraphPoint;

    open spec fn view(&self) -> GraphPoint {
        match self {
            GraphNode::Instance(id) => GraphPoint::Instance(id@),
            GraphNode::Infra(id) => GraphPoint::Infra(id@),
            GraphNode::System(id) => GraphPoint::System(id@),
            GraphNode::Person(id) => GraphPoint::Person(id@),
        }
    }
}

impl GraphNode {
    fn copy(&self) -> (r: GraphNode)
        ensures
            r@ == self@,
    {
        match self {
            GraphNode::Instance(id) => GraphNode::Instance(id.copy()),
            GraphNode::Infra(id) => GraphNode::Infra(id.copy()),
            GraphNode::System(id) => GraphNode::System(id.copy()),
            GraphNode::Person(id) => GraphNode::Person(id.copy()),
        }
    }

    fn same(&self, other: &GraphNode) -> (r: bool)
        ensures
            r == (self@ == other@),
    {
        match (self, other) {
            (GraphNode::Instance(a), GraphNode::Instance(b)) => a.same(b),
            (GraphNode::Infra(a), GraphNode::Infra(b)) => a.same(b),
            (GraphNode::System(a), GraphNode::System(b)) => a.same(b),
            (GraphNode::Person(a), GraphNode::Person(b)) => a.same(b),
            _ => false,
        }
    }
}

pub open spec fn instance_point() -> spec_fn(ContainerInstanceView) -> GraphPoint {
    |i: ContainerInstanceView| GraphPoint::Instance(i.id)
}

/// The points one end of a connection reaches; a wildcard reaches several.
pub open spec fn resolve_spec(e: EnvironmentView, side: EndpointingView) -> Seq<GraphPoint> {
    match side {
        EndpointingView::Instance { target, .. } => match target {
            InstanceRefView::One(id) => seq![GraphPoint::Instance(id)],
            InstanceRefView::Pattern { slug_pattern, within, .. } => matching(e, slug_pattern, within).map_values(instance_point()),
        },
        EndpointingView::Infra { node, .. } => seq![GraphPoint::Infra(node)],
        EndpointingView::System { instance, .. } => seq![GraphPoint::System(instance)],
        EndpointingView::Person { person } => seq![GraphPoint::Person(person)],
    }
}

pub open spec fn of_container(c: Seq<char>) -> spec_fn(ContainerInstanceView) -> bool {
    |i: ContainerInstanceView| i.container == c
}

pub open spec fn of_system(s: Seq<char>) -> spec_fn(SoftwareSystemInstanceView) -> bool {
    |x: SoftwareSystemInstanceView| x.system == s
}

pub open spec fn landing_point() -> spec_fn(SoftwareSystemInstanceView) -> GraphPoint {
    |x: SoftwareSystemInstanceView| GraphPoint::System(x.id)
}

/// The points one end of a relationship stands for in an environment: every
/// instance of the service, every landing of the system, or the person.
pub open spec fn end_points(e: EnvironmentView, end: RelationshipEndView) -> Seq<GraphPoint> {
    match end {
        RelationshipEndView::Container(c) => env_instances(e).filter(of_container(c)).map_values(instance_point()),
        RelationshipEndView::System(s) => e.systems.filter(of_system(s)).map_values(landing_point()),
        RelationshipEndView::Person(p) => seq![GraphPoint::Person(p)],
    }
}

pub open spec fn from_groups(fs: Seq<GraphPoint>, ts: Seq<GraphPoint>) -> Seq<(GraphPoint, Seq<GraphPoint>)> {
    fs.map_values(|f: GraphPoint| (f, ts))
}

/// The edges of some connections, grouped: every point a connection's start reaches
/// leads to every point its end reaches.
pub open spec fn groups(e: EnvironmentView, cs: Seq<ConnectionView>) -> Seq<(GraphPoint, Seq<GraphPoint>)>
    decreases cs.len(),
{
    if cs.len() == 0 {
        seq![]
    } else {
        groups(e, cs.drop_last()) + from_groups(resolve_spec(e, cs.last().from), resolve_spec(e, cs.last().to))
    }
}

pub open spec fn edge(g: Seq<(GraphPoint, Seq<GraphPoint>)>, a: GraphPoint, b: GraphPoint) -> bool {
    exists|k: int| 0 <= k < g.len() && g[k].0 == a && g[k].1.contains(b)
}

/// A path that starts at a start and follows edges.
pub open spec fn is_walk(g: Seq<(GraphPoint, Seq<GraphPoint>)>, starts: Seq<GraphPoint>, p: Seq<GraphPoint>) -> bool {
    &&& p.len() > 0
    &&& starts.contains(p[0])
    &&& forall|k: int| 0 <= k < p.len() - 1 ==> edge(g, #[trigger] p[k], p[k + 1])
}

pub open spec fn walks_to(g: Seq<(GraphPoint, Seq<GraphPoint>)>, starts: Seq<GraphPoint>, x: GraphPoint) -> bool {
    exists|p: Seq<GraphPoint>| is_walk(g, starts, p) && p.last() == x
}

proof fn lemma_some_walk(g: Seq<(GraphPoint, Seq<GraphPoint>)>, starts: Seq<GraphPoint>, x: GraphPoint) -> (p: Seq<GraphPoint>)
    requires
        walks_to(g, starts, x),
    ensures
        is_walk(g, starts, p),
        p.last() == x,
{
    choose|p: Seq<GraphPoint>| is_walk(g, starts, p) && p.last() == x
}

/// Whether some goal can be reached from some start.
pub open spec fn reaches(g: Seq<(GraphPoint, Seq<GraphPoint>)>, starts: Seq<GraphPoint>, goals: Seq<GraphPoint>) -> bool {
    exists|p: Seq<GraphPoint>| is_walk(g, starts, p) && goals.contains(p.last())
}

/// L001 when a relationship has no connection in the environment; L002 when its
/// connections lead from no instance of its source to any of its target. When either
/// end is not realised at all, L001 has spoken already and nothing more is said.
pub open spec fn relationship_reach(e: EnvironmentView, r: RelationshipView) -> Seq<FindingView> {
    let s = serving_spec(e, r.id);
    if s.len() == 0 {
        seq![fv(Rule::L001, Some(e.id), r.id, None, "邏輯連線 "@ + r.slug + " 在環境 "@ + e.slug + " 沒有任何實際連線"@)]
    } else {
        let starts = end_points(e, r.from);
        let goals = end_points(e, r.to);
        if starts.len() == 0 || goals.len() == 0 {
            seq![]
        } else {
            when(!reaches(groups(e, s), starts, goals), fv(Rule::L002, Some(e.id), r.id, None,
                "邏輯連線 "@ + r.slug + " 在環境 "@ + e.slug + " 走不通：從來源出發到不了目標"@))
        }
    }
}

pub open spec fn relationship_reach_fn(e: EnvironmentView) -> spec_fn(RelationshipView) -> Seq<FindingView> {
    |r: RelationshipView| relationship_reach(e, r)
}

pub open spec fn points_view(s: Seq<GraphNode>) -> Seq<GraphPoint> {
    s.map_values(|x: GraphNode| x@)
}

pub open spec fn groups_view(s: Seq<(GraphNode, Vec<GraphNode>)>) -> Seq<(GraphPoint, Seq<GraphPoint>)> {
    s.map_values(|x: (GraphNode, Vec<GraphNode>)| (x.0@, points_view(x.1@)))
}

pub open spec fn targets(g: Seq<(GraphPoint, Seq<GraphPoint>)>) -> Seq<GraphPoint>
    decreases g.len(),
{
    if g.len() == 0 {
        seq![]
    } else {
        targets(g.drop_last()) + g.last().1
    }
}

proof fn lemma_targets(g: Seq<(GraphPoint, Seq<GraphPoint>)>, k: int, y: GraphPoint)
    requires
        0 <= k < g.len(),
        g[k].1.contains(y),
    ensures
        targets(g).contains(y),
    decreases g.len(),
{
    let t = targets(g.drop_last());
    if k == g.len() - 1 {
        let j = choose|j: int| 0 <= j < g[k].1.len() && g[k].1[j] == y;
        assert((t + g.last().1)[t.len() + j] == y);
    } else {
        lemma_targets(g.drop_last(), k, y);
        let j = choose|j: int| 0 <= j < t.len() && t[j] == y;
        assert((t + g.last().1)[j] == y);
    }
}

proof fn lemma_extend_walk(g: Seq<(GraphPoint, Seq<GraphPoint>)>, starts: Seq<GraphPoint>, p: Seq<GraphPoint>, y: GraphPoint)
    requires
        is_walk(g, starts, p),
        edge(g, p.last(), y),
    ensures
        is_walk(g, starts, p.push(y)),
        p.push(y).last() == y,
{
    let q = p.push(y);
    assert forall|k: int| 0 <= k < q.len() - 1 implies edge(g, #[trigger] q[k], q[k + 1]) by {
        if k < p.len() - 1 {
            assert(q[k] == p[k] && q[k + 1] == p[k + 1]);
        } else {
            assert(q[k] == p.last());
        }
    }
}

proof fn lemma_walk_stays(g: Seq<(GraphPoint, Seq<GraphPoint>)>, starts: Seq<GraphPoint>, seen: Seq<GraphPoint>, p: Seq<GraphPoint>)
    requires
        is_walk(g, starts, p),
        forall|x: GraphPoint| starts.contains(x) ==> seen.contains(x),
        forall|k: int, y: GraphPoint| 0 <= k < seen.len() && edge(g, seen[k], y) ==> seen.contains(y),
    ensures
        seen.contains(p.last()),
    decreases p.len(),
{
    if p.len() == 1 {
        assert(p.last() == p[0]);
    } else {
        let q = p.drop_last();
        assert forall|k: int| 0 <= k < q.len() - 1 implies edge(g, #[trigger] q[k], q[k + 1]) by {
            assert(q[k] == p[k] && q[k + 1] == p[k + 1]);
        }
        lemma_walk_stays(g, starts, seen, q);
        let j = choose|j: int| 0 <= j < seen.len() && seen[j] == q.last();
        assert(p[p.len() - 2] == q.last());
        assert(edge(g, p[p.len() - 2], p[p.len() - 1]));
    }
}

proof fn lemma_bound(seen: Seq<GraphPoint>, universe: Seq<GraphPoint>)
    requires
        seen.no_duplicates(),
        forall|x: GraphPoint| seen.contains(x) ==> universe.contains(x),
    ensures
        seen.len() <= universe.len(),
{
    seen.unique_seq_to_set();
    universe.lemma_cardinality_of_set();
    vstd::seq_lib::seq_to_set_is_finite(universe);
    assert(seen.to_set().subset_of(universe.to_set()));
    vstd::set_lib::lemma_len_subset(seen.to_set(), universe.to_set());
}

fn contains_node(v: &Vec<GraphNode>, x: &GraphNode) -> (r: bool)
    ensures
        r == points_view(v@).contains(x@),
{
    let mut i: usize = 0;
    while i < v.len()
        invariant
            i <= v@.len(),
            forall|j: int| 0 <= j < i ==> v@[j]@ != x@,
        decreases v.len() - i,
    {
        if v[i].same(x) {
            assert(points_view(v@)[i as int] == x@);
            return true;
        }
        i += 1;
    }
    proof {
        if points_view(v@).contains(x@) {
            let j = choose|j: int| 0 <= j < points_view(v@).len() && points_view(v@)[j] == x@;
            assert(v@[j]@ == x@);
        }
    }
    false
}

fn copy_points(v: &Vec<GraphNode>) -> (r: Vec<GraphNode>)
    ensures
        points_view(r@) == points_view(v@),
{
    let mut out: Vec<GraphNode> = Vec::new();
    let mut i: usize = 0;
    while i < v.len()
        invariant
            i <= v@.len(),
            points_view(out@) == points_view(v@).take(i as int),
        decreases v.len() - i,
    {
        let ghost before = out@;
        out.push(v[i].copy());
        proof {
            assert(points_view(out@) =~= points_view(before).push(v@[i as int]@));
            assert(points_view(v@).take(i + 1) =~= points_view(v@).take(i as int).push(v@[i as int]@));
        }
        i += 1;
    }
    assert(points_view(v@).take(i as int) =~= points_view(v@));
    out
}

fn single(x: GraphNode) -> (r: Vec<GraphNode>)
    ensures
        points_view(r@) == seq![x@],
{
    let ghost xv = x@;
    let mut v: Vec<GraphNode> = Vec::new();
    v.push(x);
    assert(points_view(v@) =~= seq![xv]);
    v
}

/// The points one end of a connection reaches.
fn resolve(index: &EnvIndex, side: &Endpointing) -> (r: Vec<GraphNode>)
    ensures
        points_view(r@) == resolve_spec(index.env_view(), side@),
{
    match side {
        Endpointing::Instance { target, .. } => match target {
            InstanceRef::One(id) => single(GraphNode::Instance(id.copy())),
            InstanceRef::Pattern { slug_pattern, within, .. } => {
                let found = index.matching_within(slug_pattern.as_str(), within.as_ref());
                let ghost s = instance_refs_view(found@);
                let mut out: Vec<GraphNode> = Vec::new();
                let mut i: usize = 0;
                while i < found.len()
                    invariant
                        i <= found@.len(),
                        s == instance_refs_view(found@),
                        points_view(out@) == s.take(i as int).map_values(instance_point()),
                    decreases found.len() - i,
                {
                    let ghost before = out@;
                    out.push(GraphNode::Instance(found[i].id.copy()));
                    proof {
                        assert(s[i as int] == found@[i as int]@);
                        assert(points_view(out@) =~= points_view(before).push(GraphPoint::Instance(s[i as int].id)));
                        assert(s.take(i + 1) =~= s.take(i as int).push(s[i as int]));
                        assert(s.take(i + 1).map_values(instance_point()) =~= s.take(i as int).map_values(instance_point()).push(
                            GraphPoint::Instance(s[i as int].id),
                        ));
                    }
                    i += 1;
                }
                assert(s.take(i as int) =~= s);
                out
            },
        },
        Endpointing::Infra { node, .. } => single(GraphNode::Infra(node.copy())),
        Endpointing::System { instance, .. } => single(GraphNode::System(instance.copy())),
        Endpointing::Person { person } => single(GraphNode::Person(person.copy())),
    }
}

/// The points one end of a relationship stands for.
fn end_nodes(e: &Environment, all: &Vec<&ContainerInstance>, end: &RelationshipEnd) -> (r: Vec<GraphNode>)
    requires
        instance_refs_view(all@) == env_instances(e@),
    ensures
        points_view(r@) == end_points(e@, end@),
{
    match end {
        RelationshipEnd::Container(c) => {
            let ghost s = env_instances(e@);
            let ghost pr = of_container(c@);
            let mut out: Vec<GraphNode> = Vec::new();
            let mut i: usize = 0;
            while i < all.len()
                invariant
                    i <= all@.len(),
                    s == instance_refs_view(all@),
                    pr == of_container(c@),
                    points_view(out@) == s.take(i as int).filter(pr).map_values(instance_point()),
                decreases all.len() - i,
            {
                proof {
                    assert(s.take(i + 1).drop_last() =~= s.take(i as int));
                    assert(s[i as int] == all@[i as int]@);
                    reveal(Seq::filter);
                }
                let ghost before = out@;
                if all[i].container.same(c) {
                    out.push(GraphNode::Instance(all[i].id.copy()));
                    proof {
                        assert(s.take(i + 1).filter(pr) == s.take(i as int).filter(pr).push(s[i as int]));
                        assert(points_view(out@) =~= points_view(before).push(GraphPoint::Instance(s[i as int].id)));
                        assert(s.take(i as int).filter(pr).push(s[i as int]).map_values(instance_point())
                            =~= s.take(i as int).filter(pr).map_values(instance_point()).push(GraphPoint::Instance(s[i as int].id)));
                        assert(points_view(out@) =~= s.take(i + 1).filter(pr).map_values(instance_point()));
                    }
                } else {
                    proof {
                        assert(s.take(i + 1).filter(pr) == s.take(i as int).filter(pr));
                    }
                }
                i += 1;
            }
            assert(s.take(i as int) =~= s);
            out
        },
        RelationshipEnd::System(sys) => {
            let ghost s = e@.systems;
            let ghost pr = of_system(sys@);
            let mut out: Vec<GraphNode> = Vec::new();
            let mut i: usize = 0;
            while i < e.systems.len()
                invariant
                    i <= e.systems@.len(),
                    s == e@.systems,
                    pr == of_system(sys@),
                    points_view(out@) == s.take(i as int).filter(pr).map_values(landing_point()),
                decreases e.systems.len() - i,
            {
                proof {
                    assert(s.take(i + 1).drop_last() =~= s.take(i as int));
                    assert(s[i as int] == e.systems@[i as int]@);
                    reveal(Seq::filter);
                }
                let ghost before = out@;
                if e.systems[i].system.same(sys) {
                    out.push(GraphNode::System(e.systems[i].id.copy()));
                    proof {
                        assert(s.take(i + 1).filter(pr) == s.take(i as int).filter(pr).push(s[i as int]));
                        assert(points_view(out@) =~= points_view(before).push(GraphPoint::System(s[i as int].id)));
                        assert(s.take(i as int).filter(pr).push(s[i as int]).map_values(landing_point())
                            =~= s.take(i as int).filter(pr).map_values(landing_point()).push(GraphPoint::System(s[i as int].id)));
                        assert(points_view(out@) =~= s.take(i + 1).filter(pr).map_values(landing_point()));
                    }
                } else {
                    proof {
                        assert(s.take(i + 1).filter(pr) == s.take(i as int).filter(pr));
                    }
                }
                i += 1;
            }
            assert(s.take(i as int) =~= s);
            out
        },
        RelationshipEnd::Person(p) => single(GraphNode::Person(p.copy())),
    }
}

/// The grouped edges of the connections that serve a relationship.
fn build_groups(index: &EnvIndex, serving: &Vec<&crate::environment::Connection>) -> (r: Vec<(GraphNode, Vec<GraphNode>)>)
    ensures
        groups_view(r@) == groups(index.env_view(), serving@.map_values(|c: &crate::environment::Connection| c@)),
{
    let ghost e = index.env_view();
    let ghost cs = serving@.map_values(|c: &crate::environment::Connection| c@);
    let mut out: Vec<(GraphNode, Vec<GraphNode>)> = Vec::new();
    let mut c: usize = 0;
    while c < serving.len()
        invariant
            c <= serving@.len(),
            e == index.env_view(),
            cs == serving@.map_values(|c: &crate::environment::Connection| c@),
            groups_view(out@) == groups(e, cs.take(c as int)),
        decreases serving.len() - c,
    {
        let conn = serving[c];
        let to = resolve(index, &conn.to);
        let from = resolve(index, &conn.from);
        let ghost start = groups_view(out@);
        let ghost tv = points_view(to@);
        let ghost fvs = points_view(from@);
        let mut i: usize = 0;
        while i < from.len()
            invariant
                i <= from@.len(),
                tv == points_view(to@),
                fvs == points_view(from@),
                groups_view(out@) == start + from_groups(fvs.take(i as int), tv),
            decreases from.len() - i,
        {
            let ghost before = out@;
            let entry = (from[i].copy(), copy_points(&to));
            out.push(entry);
            proof {
                assert(groups_view(out@) =~= groups_view(before).push((fvs[i as int], tv)));
                assert(fvs.take(i + 1) =~= fvs.take(i as int).push(fvs[i as int]));
                assert(from_groups(fvs.take(i + 1), tv) =~= from_groups(fvs.take(i as int), tv).push((fvs[i as int], tv)));
            }
            i += 1;
        }
        proof {
            assert(fvs.take(i as int) =~= fvs);
            assert(cs[c as int] == conn@);
            assert(cs.take(c + 1).drop_last() =~= cs.take(c as int));
            assert(cs.take(c + 1).last() == conn@);
            assert(groups_view(out@) =~= groups(e, cs.take(c + 1)));
        }
        c += 1;
    }
    assert(cs.take(c as int) =~= cs);
    out
}

/// Breadth-first search: can some goal be reached from some start.
fn reachable(g: &Vec<(GraphNode, Vec<GraphNode>)>, starts: &Vec<GraphNode>, goals: &Vec<GraphNode>) -> (r: bool)
    ensures
        r == reaches(groups_view(g@), points_view(starts@), points_view(goals@)),
{
    let ghost gv = groups_view(g@);
    let ghost sv = points_view(starts@);
    let ghost tv = points_view(goals@);
    let ghost universe = sv + targets(gv);
    let mut seen: Vec<GraphNode> = Vec::new();
    let mut i: usize = 0;
    while i < starts.len()
        invariant
            i <= starts@.len(),
            gv == groups_view(g@),
            sv == points_view(starts@),
            tv == points_view(goals@),
            universe == sv + targets(gv),
            points_view(seen@).no_duplicates(),
            forall|x: GraphPoint| points_view(seen@).contains(x) ==> universe.contains(x),
            forall|x: GraphPoint| points_view(seen@).contains(x) ==> walks_to(gv, sv, x),
            forall|x: GraphPoint| points_view(seen@).contains(x) ==> !tv.contains(x),
            forall|j: int| 0 <= j < i ==> points_view(seen@).contains(#[trigger] sv[j]),
        decreases starts.len() - i,
    {
        let s = &starts[i];
        proof {
            assert(sv[i as int] == s@);
            let p = seq![s@];
            assert(is_walk(gv, sv, p));
            assert(p.last() == s@);
        }
        if contains_node(goals, s) {
            proof {
                let p = seq![s@];
                assert(is_walk(gv, sv, p) && tv.contains(p.last()));
            }
            return true;
        }
        if !contains_node(&seen, s) {
            let ghost before = points_view(seen@);
            seen.push(s.copy());
            proof {
                assert(points_view(seen@) =~= before.push(s@));
                assert(universe[i as int] == s@);
                assert forall|a: int, b: int| 0 <= a < b < points_view(seen@).len() implies points_view(seen@)[a] != points_view(seen@)[b] by {
                    if b == before.len() {
                        assert(before[a] == points_view(seen@)[a]);
                    }
                }
                assert forall|j: int| 0 <= j < i + 1 implies points_view(seen@).contains(#[trigger] sv[j]) by {
                    if j < i {
                        let m = choose|m: int| 0 <= m < before.len() && before[m] == sv[j];
                        assert(points_view(seen@)[m] == sv[j]);
                    } else {
                        assert(points_view(seen@)[before.len() as int] == sv[j]);
                    }
                }
            }
        }
        i += 1;
    }
    proof {
        lemma_bound(points_view(seen@), universe);
    }
    let mut head: usize = 0;
    while head < seen.len()
        invariant
            head <= seen@.len(),
            seen@.len() <= universe.len(),
            gv == groups_view(g@),
            sv == points_view(starts@),
            tv == points_view(goals@),
            universe == sv + targets(gv),
            points_view(seen@).no_duplicates(),
            forall|x: GraphPoint| points_view(seen@).contains(x) ==> universe.contains(x),
            forall|x: GraphPoint| points_view(seen@).contains(x) ==> walks_to(gv, sv, x),
            forall|x: GraphPoint| points_view(seen@).contains(x) ==> !tv.contains(x),
            forall|x: GraphPoint| sv.contains(x) ==> points_view(seen@).contains(x),
            forall|k: int, y: GraphPoint| 0 <= k < head && edge(gv, points_view(seen@)[k], y) ==> points_view(seen@).contains(y),
        decreases universe.len() - head,
    {
        let cur = seen[head].copy();
        let ghost cv = cur@;
        proof {
            assert(points_view(seen@)[head as int] == cv);
        }
        let mut gi: usize = 0;
        while gi < g.len()
            invariant
                gi <= g@.len(),
                head < seen@.len(),
                cur@ == cv,
                points_view(seen@)[head as int] == cv,
                seen@.len() <= universe.len(),
                gv == groups_view(g@),
                sv == points_view(starts@),
                tv == points_view(goals@),
                universe == sv + targets(gv),
                points_view(seen@).no_duplicates(),
                forall|x: GraphPoint| points_view(seen@).contains(x) ==> universe.contains(x),
                forall|x: GraphPoint| points_view(seen@).contains(x) ==> walks_to(gv, sv, x),
                forall|x: GraphPoint| points_view(seen@).contains(x) ==> !tv.contains(x),
                forall|x: GraphPoint| sv.contains(x) ==> points_view(seen@).contains(x),
                forall|k: int, y: GraphPoint| 0 <= k < head && edge(gv, points_view(seen@)[k], y) ==> points_view(seen@).contains(y),
                forall|m: int, y: GraphPoint| 0 <= m < gi && gv[m].0 == cv && gv[m].1.contains(y) ==> points_view(seen@).contains(y),
            decreases g.len() - gi,
        {
            proof {
                assert(gv[gi as int] == (g@[gi as int].0@, points_view(g@[gi as int].1@)));
            }
            if g[gi].0.same(&cur) {
                let targets_here = &g[gi].1;
                let ghost tg = points_view(targets_here@);
                proof {
                    assert(g@[gi as int].0@ == cv);
                    assert(gv[gi as int] == (cv, tg));
                }
                let mut ti: usize = 0;
                while ti < targets_here.len()
                    invariant
                        ti <= targets_here@.len(),
                        gi < g@.len(),
                        head < seen@.len(),
                        cur@ == cv,
                        points_view(seen@)[head as int] == cv,
                        seen@.len() <= universe.len(),
                        gv == groups_view(g@),
                        gv[gi as int] == (cv, tg),
                        tg == points_view(targets_here@),
                        sv == points_view(starts@),
                        tv == points_view(goals@),
                        universe == sv + targets(gv),
                        points_view(seen@).no_duplicates(),
                        forall|x: GraphPoint| points_view(seen@).contains(x) ==> universe.contains(x),
                        forall|x: GraphPoint| points_view(seen@).contains(x) ==> walks_to(gv, sv, x),
                        forall|x: GraphPoint| points_view(seen@).contains(x) ==> !tv.contains(x),
                        forall|x: GraphPoint| sv.contains(x) ==> points_view(seen@).contains(x),
                        forall|k: int, y: GraphPoint| 0 <= k < head && edge(gv, points_view(seen@)[k], y) ==> points_view(seen@).contains(y),
                        forall|m: int, y: GraphPoint| 0 <= m < gi && gv[m].0 == cv && gv[m].1.contains(y) ==> points_view(seen@).contains(y),
                        forall|j: int| 0 <= j < ti ==> points_view(seen@).contains(#[trigger] tg[j]),
                    decreases targets_here.len() - ti,
                {
                    let next = &targets_here[ti];
                    proof {
                        assert(tg[ti as int] == next@);
                        assert(gv[gi as int].1.contains(next@));
                        assert(edge(gv, cv, next@));
                        assert(points_view(seen@).contains(cv));
                        assert(walks_to(gv, sv, cv));
                        let p = lemma_some_walk(gv, sv, cv);
                        lemma_extend_walk(gv, sv, p, next@);
                        assert(walks_to(gv, sv, next@));
                        lemma_targets(gv, gi as int, next@);
                        let t = targets(gv);
                        let j = choose|j: int| 0 <= j < t.len() && t[j] == next@;
                        assert(universe[sv.len() + j] == next@);
                    }
                    if contains_node(goals, next) {
                        proof {
                            let p = lemma_some_walk(gv, sv, next@);
                            assert(is_walk(gv, sv, p) && tv.contains(p.last()));
                        }
                        return true;
                    }
                    if !contains_node(&seen, next) {
                        let ghost before = points_view(seen@);
                        seen.push(next.copy());
                        proof {
                            assert(points_view(seen@) =~= before.push(next@));
                            assert forall|a: int, b: int| 0 <= a < b < points_view(seen@).len() implies points_view(seen@)[a] != points_view(seen@)[b] by {
                                if b == before.len() {
                                    assert(before[a] == points_view(seen@)[a]);
                                }
                            }
                            assert forall|x: GraphPoint| points_view(seen@).contains(x) implies before.contains(x) || x == next@ by {
                                let m = choose|m: int| 0 <= m < points_view(seen@).len() && points_view(seen@)[m] == x;
                                if m < before.len() {
                                    assert(before[m] == x);
                                }
                            }
                            assert forall|x: GraphPoint| before.contains(x) implies points_view(seen@).contains(x) by {
                                let m = choose|m: int| 0 <= m < before.len() && before[m] == x;
                                assert(points_view(seen@)[m] == x);
                            }
                            assert(points_view(seen@)[before.len() as int] == next@);
                            lemma_bound(points_view(seen@), universe);
                            assert forall|k: int, y: GraphPoint| 0 <= k < head && edge(gv, points_view(seen@)[k], y) implies points_view(seen@).contains(y) by {
                                assert(points_view(seen@)[k] == before[k]);
                            }
                            assert forall|j: int| 0 <= j < ti + 1 implies points_view(seen@).contains(#[trigger] tg[j]) by {
                                if j < ti {
                                    assert(before.contains(tg[j]));
                                }
                            }
                        }
                    }
                    ti += 1;
                }
                proof {
                    assert forall|m: int, y: GraphPoint| 0 <= m < gi + 1 && gv[m].0 == cv && gv[m].1.contains(y) implies points_view(seen@).contains(y) by {
                        if m == gi {
                            let j = choose|j: int| 0 <= j < tg.len() && tg[j] == y;
                            assert(points_view(seen@).contains(tg[j]));
                        }
                    }
                }
            } else {
                proof {
                    assert(gv[gi as int].0 != cv);
                }
            }
            gi += 1;
        }
        proof {
            assert forall|k: int, y: GraphPoint| 0 <= k < head + 1 && edge(gv, points_view(seen@)[k], y) implies points_view(seen@).contains(y) by {
                if k == head {
                    let m = choose|m: int| 0 <= m < gv.len() && gv[m].0 == points_view(seen@)[k] && gv[m].1.contains(y);
                }
            }
        }
        head += 1;
    }
    proof {
        if reaches(gv, sv, tv) {
            let p = choose|p: Seq<GraphPoint>| is_walk(gv, sv, p) && tv.contains(p.last());
            lemma_walk_stays(gv, sv, points_view(seen@), p);
        }
    }
    false
}


fn check_relationship_reach(index: &EnvIndex, e: &Environment, all: &Vec<&ContainerInstance>, r: &Relationship, out: &mut Vec<Finding>)
    requires
        index.env_view() == e@,
        instance_refs_view(all@) == env_instances(e@),
    ensures
        findings_view(final(out)@) == findings_view(old(out)@) + relationship_reach(e@, r@),
{
    let ghost start = findings_view(out@);
    let serving = index.serving(&r.id);
    if serving.len() == 0 {
        let mut d = "邏輯連線 ".to_string();
        d.append(r.slug.as_str());
        d.append(" 在環境 ");
        d.append(e.slug.as_str());
        d.append(" 沒有任何實際連線");
        emit(out, finding(Rule::L001, Some(&e.id), &r.id, None, d));
        return;
    }
    let starts = end_nodes(e, all, &r.from);
    let goals = end_nodes(e, all, &r.to);
    if starts.len() == 0 || goals.len() == 0 {
        assert(findings_view(out@) =~= start + relationship_reach(e@, r@));
        return;
    }
    let g = build_groups(index, &serving);
    if !reachable(&g, &starts, &goals) {
        let mut d = "邏輯連線 ".to_string();
        d.append(r.slug.as_str());
        d.append(" 在環境 ");
        d.append(e.slug.as_str());
        d.append(" 走不通：從來源出發到不了目標");
        emit(out, finding(Rule::L002, Some(&e.id), &r.id, None, d));
    } else {
        assert(findings_view(out@) =~= start + relationship_reach(e@, r@));
    }
}

pub open spec fn reachability(l: LogicalView, e: EnvironmentView) -> Seq<FindingView> {
    flat(l.relationships, relationship_reach_fn(e))
}

fn check_reachability(l: &Logical, index: &EnvIndex, e: &Environment, all: &Vec<&ContainerInstance>, out: &mut Vec<Finding>)
    requires
        index.env_view() == e@,
        instance_refs_view(all@) == env_instances(e@),
    ensures
        findings_view(final(out)@) == findings_view(old(out)@) + reachability(l@, e@),
{
    let ghost start = findings_view(out@);
    let mut i: usize = 0;
    while i < l.relationships.len()
        invariant
            i <= l.relationships@.len(),
            index.env_view() == e@,
            instance_refs_view(all@) == env_instances(e@),
            findings_view(out@) == start + flat(l@.relationships.take(i as int), relationship_reach_fn(e@)),
        decreases l.relationships.len() - i,
    {
        check_relationship_reach(index, e, all, &l.relationships[i], out);
        proof {
            assert(l@.relationships[i as int] == l.relationships@[i as int]@);
            lemma_flat_step(l@.relationships, relationship_reach_fn(e@), i as int);
            assert(findings_view(out@) =~= start + flat(l@.relationships.take(i + 1), relationship_reach_fn(e@)));
        }
        i += 1;
    }
    proof {
        lemma_flat_all(l@.relationships, relationship_reach_fn(e@));
    }
}

// ---- orphans ----

/// Whether a list of points names this instance or external-system landing.
pub open spec fn touches(pts: Seq<GraphPoint>, id: Seq<char>) -> bool {
    exists|j: int| 0 <= j < pts.len() && (pts[j] == GraphPoint::Instance(id) || pts[j] == GraphPoint::System(id))
}

/// Whether one of the first `n` connections touches this id at either end.
pub open spec fn touched_by(e: EnvironmentView, n: int, id: Seq<char>) -> bool {
    exists|k: int| 0 <= k < n && (touches(resolve_spec(e, e.connections[k].from), id)
        || touches(resolve_spec(e, e.connections[k].to), id))
}

pub open spec fn touched(e: EnvironmentView, id: Seq<char>) -> bool {
    touched_by(e, e.connections.len() as int, id)
}

/// L008: an instance that no connection touches, unless it is marked standalone.
pub open spec fn orphan_instance(e: EnvironmentView, i: ContainerInstanceView) -> Seq<FindingView> {
    when(!i.standalone && !touched(e, i.id), fv(Rule::L008, Some(e.id), i.id, None, "Instance "@ + i.slug + " 沒有被任何連線碰到"@))
}

pub open spec fn orphan_instance_fn(e: EnvironmentView) -> spec_fn(ContainerInstanceView) -> Seq<FindingView> {
    |i: ContainerInstanceView| orphan_instance(e, i)
}

pub open spec fn orphan_landing(e: EnvironmentView, s: SoftwareSystemInstanceView) -> Seq<FindingView> {
    when(!s.standalone && !touched(e, s.id), fv(Rule::L008, Some(e.id), s.id, None, "外部系統 "@ + s.slug + " 沒有被任何連線碰到"@))
}

pub open spec fn orphan_landing_fn(e: EnvironmentView) -> spec_fn(SoftwareSystemInstanceView) -> Seq<FindingView> {
    |s: SoftwareSystemInstanceView| orphan_landing(e, s)
}

pub open spec fn orphans(e: EnvironmentView) -> Seq<FindingView> {
    flat(env_instances(e), orphan_instance_fn(e)) + flat(e.systems, orphan_landing_fn(e))
}

fn add_touched(t: &mut Vec<Id>, pts: &Vec<GraphNode>)
    ensures
        forall|id: Seq<char>| #[trigger] crate::order::ids_view(final(t)@).contains(id)
            == (crate::order::ids_view(old(t)@).contains(id) || touches(points_view(pts@), id)),
{
    let ghost t0 = crate::order::ids_view(t@);
    let mut i: usize = 0;
    while i < pts.len()
        invariant
            i <= pts@.len(),
            forall|id: Seq<char>| #[trigger] crate::order::ids_view(t@).contains(id)
                == (t0.contains(id) || touches(points_view(pts@).take(i as int), id)),
        decreases pts.len() - i,
    {
        let ghost before = crate::order::ids_view(t@);
        let ghost pv = points_view(pts@);
        match &pts[i] {
            GraphNode::Instance(id) => {
                t.push(id.copy());
            },
            GraphNode::System(id) => {
                t.push(id.copy());
            },
            _ => {},
        }
        proof {
            assert(pv[i as int] == pts@[i as int]@);
            assert forall|id: Seq<char>| #[trigger] crate::order::ids_view(t@).contains(id)
                == (t0.contains(id) || touches(pv.take(i + 1), id)) by {
                let q = pv.take(i + 1);
                if touches(q, id) {
                    let j = choose|j: int| 0 <= j < q.len() && (q[j] == GraphPoint::Instance(id) || q[j] == GraphPoint::System(id));
                    if j < i {
                        assert(pv.take(i as int)[j] == q[j]);
                        assert(touches(pv.take(i as int), id));
                    }
                }
                if touches(pv.take(i as int), id) {
                    let j = choose|j: int| 0 <= j < i && (pv.take(i as int)[j] == GraphPoint::Instance(id) || pv.take(i as int)[j] == GraphPoint::System(id));
                    assert(q[j] == pv.take(i as int)[j]);
                }
                match pts@[i as int] {
                    GraphNode::Instance(x) => {
                        assert(crate::order::ids_view(t@) =~= before.push(x@));
                        if id == x@ {
                            assert(q[i as int] == GraphPoint::Instance(id));
                            assert(crate::order::ids_view(t@)[before.len() as int] == id);
                        }
                        if before.contains(id) {
                            let m = choose|m: int| 0 <= m < before.len() && before[m] == id;
                            assert(crate::order::ids_view(t@)[m] == id);
                        }
                    },
                    GraphNode::System(x) => {
                        assert(crate::order::ids_view(t@) =~= before.push(x@));
                        if id == x@ {
                            assert(q[i as int] == GraphPoint::System(id));
                            assert(crate::order::ids_view(t@)[before.len() as int] == id);
                        }
                        if before.contains(id) {
                            let m = choose|m: int| 0 <= m < before.len() && before[m] == id;
                            assert(crate::order::ids_view(t@)[m] == id);
                        }
                    },
                    _ => {
                        assert(crate::order::ids_view(t@) == before);
                    },
                }
            }
        }
        i += 1;
    }
    assert(points_view(pts@).take(i as int) =~= points_view(pts@));
}

/// The ids that some connection touches at either end.
fn touched_ids(index: &EnvIndex, e: &Environment) -> (r: Vec<Id>)
    requires
        index.env_view() == e@,
    ensures
        forall|id: Seq<char>| #[trigger] crate::order::ids_view(r@).contains(id) == touched(e@, id),
{
    let mut t: Vec<Id> = Vec::new();
    let mut c: usize = 0;
    while c < e.connections.len()
        invariant
            c <= e.connections@.len(),
            index.env_view() == e@,
            forall|id: Seq<char>| #[trigger] crate::order::ids_view(t@).contains(id) == touched_by(e@, c as int, id),
        decreases e.connections.len() - c,
    {
        let from = resolve(index, &e.connections[c].from);
        let to = resolve(index, &e.connections[c].to);
        let ghost t0 = crate::order::ids_view(t@);
        add_touched(&mut t, &from);
        add_touched(&mut t, &to);
        proof {
            assert(e@.connections[c as int] == e.connections@[c as int]@);
            assert forall|id: Seq<char>| #[trigger] crate::order::ids_view(t@).contains(id) == touched_by(e@, c + 1, id) by {
                if touched_by(e@, c + 1, id) && !touched_by(e@, c as int, id) {
                    let k = choose|k: int| 0 <= k < c + 1 && (touches(resolve_spec(e@, e@.connections[k].from), id)
                        || touches(resolve_spec(e@, e@.connections[k].to), id));
                    assert(k == c);
                }
                if touched_by(e@, c as int, id) {
                    let k = choose|k: int| 0 <= k < c && (touches(resolve_spec(e@, e@.connections[k].from), id)
                        || touches(resolve_spec(e@, e@.connections[k].to), id));
                    assert(0 <= k < c + 1);
                }
            }
        }
        c += 1;
    }
    t
}

fn check_orphans(index: &EnvIndex, e: &Environment, all: &Vec<&ContainerInstance>, out: &mut Vec<Finding>)
    requires
        index.env_view() == e@,
        instance_refs_view(all@) == env_instances(e@),
    ensures
        findings_view(final(out)@) == findings_view(old(out)@) + orphans(e@),
{
    let t = touched_ids(index, e);
    let ghost start = findings_view(out@);
    let ghost xs = env_instances(e@);
    let mut i: usize = 0;
    while i < all.len()
        invariant
            i <= all@.len(),
            xs == env_instances(e@),
            instance_refs_view(all@) == xs,
            forall|id: Seq<char>| #[trigger] crate::order::ids_view(t@).contains(id) == touched(e@, id),
            findings_view(out@) == start + flat(xs.take(i as int), orphan_instance_fn(e@)),
        decreases all.len() - i,
    {
        let inst = all[i];
        let ghost mid = findings_view(out@);
        if !inst.standalone && !crate::index::contains_id(&t, &inst.id) {
            let mut d = "Instance ".to_string();
            d.append(inst.slug.as_str());
            d.append(" 沒有被任何連線碰到");
            emit(out, finding(Rule::L008, Some(&e.id), &inst.id, None, d));
        }
        proof {
            assert(xs[i as int] == inst@);
            assert(findings_view(out@) =~= mid + orphan_instance(e@, inst@));
            lemma_flat_step(xs, orphan_instance_fn(e@), i as int);
            assert(findings_view(out@) =~= start + flat(xs.take(i + 1), orphan_instance_fn(e@)));
        }
        i += 1;
    }
    proof {
        lemma_flat_all(xs, orphan_instance_fn(e@));
    }
    let ghost a = findings_view(out@);
    let mut i: usize = 0;
    while i < e.systems.len()
        invariant
            i <= e.systems@.len(),
            forall|id: Seq<char>| #[trigger] crate::order::ids_view(t@).contains(id) == touched(e@, id),
            findings_view(out@) == a + flat(e@.systems.take(i as int), orphan_landing_fn(e@)),
        decreases e.systems.len() - i,
    {
        let si = &e.systems[i];
        let ghost mid = findings_view(out@);
        if !si.standalone && !crate::index::contains_id(&t, &si.id) {
            let mut d = "外部系統 ".to_string();
            d.append(si.slug.as_str());
            d.append(" 沒有被任何連線碰到");
            emit(out, finding(Rule::L008, Some(&e.id), &si.id, None, d));
        }
        proof {
            assert(e@.systems[i as int] == si@);
            assert(findings_view(out@) =~= mid + orphan_landing(e@, si@));
            lemma_flat_step(e@.systems, orphan_landing_fn(e@), i as int);
            assert(findings_view(out@) =~= a + flat(e@.systems.take(i + 1), orphan_landing_fn(e@)));
        }
        i += 1;
    }
    proof {
        lemma_flat_all(e@.systems, orphan_landing_fn(e@));
        assert(findings_view(out@) =~= start + orphans(e@));
    }
}

// ---- the whole project ----

/// Everything lint says of one environment, in the order the checks run.
pub open spec fn environment_findings(l: LogicalView, e: EnvironmentView) -> Seq<FindingView> {
    realized(l, e) + flat(e.connections, connection_findings_fn(l, e)) + addresses(e) + reachability(l, e) + orphans(e)
        + environment_refs(l, e) + collisions_of(e, names(e))
}

pub open spec fn environment_findings_fn(l: LogicalView) -> spec_fn(EnvironmentView) -> Seq<FindingView> {
    |e: EnvironmentView| environment_findings(l, e)
}

/// Everything lint says of a project, before ordering and removing repeats.
pub open spec fn lint_raw(p: ProjectView) -> Seq<FindingView> {
    flat(p.logical.relationships, purpose_fn()) + logical_refs(p.logical) + flat(p.environments, environment_findings_fn(p.logical))
}

fn lint_environment(project: &Project, e: &Environment, out: &mut Vec<Finding>)
    ensures
        findings_view(final(out)@) == findings_view(old(out)@) + environment_findings(project@.logical, e@),
{
    let ghost start = findings_view(out@);
    let index = EnvIndex::build(project, e);
    let all = index.instances();
    let l = &project.logical;
    check_realized(l, e, all, out);
    check_connections(l, &index, e, out);
    check_addresses(e, all, out);
    check_reachability(l, &index, e, all, out);
    check_orphans(&index, e, all, out);
    check_environment_refs(l, e, out);
    check_collisions(e, out);
    assert(findings_view(out@) =~= start + environment_findings(project@.logical, e@));
}

/// Checks a whole project.
///
/// The result is ordered (by rule, environment, subject, end, detail) and holds each
/// finding once: exactly the findings [`lint_raw`] describes.
pub fn lint(project: &Project) -> (r: Vec<Finding>)
    ensures
        strictly_increasing(findings_view(r@)),
        findings_view(r@).to_set() == lint_raw(project@).to_set(),
{
    let mut raw: Vec<Finding> = Vec::new();
    check_logical(&project.logical, &mut raw);
    let ghost a = findings_view(raw@);
    let ghost es = project@.environments;
    let mut i: usize = 0;
    while i < project.environments.len()
        invariant
            i <= project.environments@.len(),
            es == project@.environments,
            findings_view(raw@) == a + flat(es.take(i as int), environment_findings_fn(project@.logical)),
        decreases project.environments.len() - i,
    {
        lint_environment(project, &project.environments[i], &mut raw);
        proof {
            assert(es[i as int] == project.environments@[i as int]@);
            lemma_flat_step(es, environment_findings_fn(project@.logical), i as int);
            assert(findings_view(raw@) =~= a + flat(es.take(i + 1), environment_findings_fn(project@.logical)));
        }
        i += 1;
    }
    proof {
        lemma_flat_all(es, environment_findings_fn(project@.logical));
        assert(findings_view(raw@) =~= lint_raw(project@));
    }
    sort_and_dedup(&raw)
}


/// Two lists of findings in lint order that hold the same findings are the same list.
pub proof fn lemma_sorted_unique(a: Seq<FindingView>, b: Seq<FindingView>)
    requires
        strictly_increasing(a),
        strictly_increasing(b),
        a.to_set() == b.to_set(),
    ensures
        a == b,
    decreases a.len(),
{
    if a.len() == 0 {
        if b.len() > 0 {
            assert(b.to_set().contains(b[0]));
        }
        assert(b.len() == 0);
    } else {
        assert(a.to_set().contains(a[0]));
        assert(b.len() > 0) by {
            if b.len() == 0 {
                assert(b.to_set().contains(a[0]));
            }
        }
        let x = a[0];
        let y = b[0];
        assert(b.to_set().contains(x));
        let j = choose|j: int| 0 <= j < b.len() && b[j] == x;
        assert(a.to_set().contains(y));
        let i = choose|i: int| 0 <= i < a.len() && a[i] == y;
        if x != y {
            assert(j > 0);
            assert(i > 0);
            assert(finding_lt(y, x));
            assert(finding_lt(x, y));
            lemma_finding_total(x, y);
        }
        let a1 = a.drop_first();
        let b1 = b.drop_first();
        assert forall|p: int, q: int| 0 <= p < q < a1.len() implies finding_lt(a1[p], a1[q]) by {
            assert(a1[p] == a[p + 1] && a1[q] == a[q + 1]);
        }
        assert forall|p: int, q: int| 0 <= p < q < b1.len() implies finding_lt(b1[p], b1[q]) by {
            assert(b1[p] == b[p + 1] && b1[q] == b[q + 1]);
        }
        assert(a1.to_set() =~= b1.to_set()) by {
            assert forall|z: FindingView| a1.to_set().contains(z) implies b1.to_set().contains(z) by {
                let p = choose|p: int| 0 <= p < a1.len() && a1[p] == z;
                assert(a.to_set().contains(z)) by { assert(a[p + 1] == z); }
                let q = choose|q: int| 0 <= q < b.len() && b[q] == z;
                assert(finding_lt(a[0], a[p + 1]));
                lemma_finding_total(x, z);
                if q == 0 {
                    assert(z == x);
                }
                assert(b1[q - 1] == z);
            }
            assert forall|z: FindingView| b1.to_set().contains(z) implies a1.to_set().contains(z) by {
                let p = choose|p: int| 0 <= p < b1.len() && b1[p] == z;
                assert(b.to_set().contains(z)) by { assert(b[p + 1] == z); }
                let q = choose|q: int| 0 <= q < a.len() && a[q] == z;
                assert(finding_lt(b[0], b[p + 1]));
                lemma_finding_total(x, z);
                if q == 0 {
                    assert(z == x);
                }
                assert(a1[q - 1] == z);
            }
        }
        lemma_sorted_unique(a1, b1);
        assert(a =~= seq![x] + a1);
        assert(b =~= seq![x] + b1);
    }
}

/// Taking findings out of a list in lint order leaves a list in lint order.
pub proof fn lemma_filter_sorted(a: Seq<FindingView>, keep: spec_fn(FindingView) -> bool)
    requires
        strictly_increasing(a),
    ensures
        strictly_increasing(a.filter(keep)),
    decreases a.len(),
{
    reveal(Seq::filter);
    if a.len() > 0 {
        let d = a.drop_last();
        assert forall|p: int, q: int| 0 <= p < q < d.len() implies finding_lt(d[p], d[q]) by {
            assert(d[p] == a[p] && d[q] == a[q]);
        }
        lemma_filter_sorted(d, keep);
        let f = d.filter(keep);
        if keep(a.last()) {
            let g = f.push(a.last());
            assert(a.filter(keep) == g);
            assert forall|p: int, q: int| 0 <= p < q < g.len() implies finding_lt(g[p], g[q]) by {
                if q == f.len() {
                    assert(f.contains(f[p]));
                    d.lemma_filter_contains_rev(keep, f[p]);
                    let k = choose|k: int| 0 <= k < d.len() && d[k] == f[p];
                    assert(finding_lt(a[k], a[a.len() - 1]));
                } else {
                    assert(g[p] == f[p] && g[q] == f[q]);
                }
            }
        }
    }
}

/// The members of a filtered list are the members of the list that pass.
pub proof fn lemma_filter_members(a: Seq<FindingView>, keep: spec_fn(FindingView) -> bool)
    ensures
        a.filter(keep).to_set() == a.to_set().filter(keep),
{
    assert forall|z: FindingView| a.filter(keep).to_set().contains(z) <==> a.to_set().filter(keep).contains(z) by {
        if a.filter(keep).to_set().contains(z) {
            assert(a.filter(keep).contains(z));
            a.lemma_filter_contains_rev(keep, z);
            let k = choose|k: int| 0 <= k < a.filter(keep).len() && a.filter(keep)[k] == z;
            a.lemma_filter_pred(keep, k);
        }
        if a.to_set().filter(keep).contains(z) {
            let k = choose|k: int| 0 <= k < a.len() && a[k] == z;
            a.lemma_filter_contains(keep, k);
        }
    }
    assert(a.filter(keep).to_set() =~= a.to_set().filter(keep));
}


proof fn lemma_flat_member<A>(s: Seq<A>, f: spec_fn(A) -> Seq<FindingView>, x: FindingView)
    requires
        flat(s, f).contains(x),
    ensures
        exists|i: int| 0 <= i < s.len() && #[trigger] f(s[i]).contains(x),
    decreases s.len(),
{
    if s.len() == 0 {
        assert(flat(s, f) =~= Seq::<FindingView>::empty());
        assert(false);
    }
    let d = s.drop_last();
    let a = flat(d, f);
    let b = f(s.last());
    assert(flat(s, f) == a + b);
    let q = choose|q: int| 0 <= q < (a + b).len() && (a + b)[q] == x;
    if q < a.len() {
        assert(a[q] == x);
        lemma_flat_member(d, f, x);
        let i = choose|i: int| 0 <= i < d.len() && #[trigger] f(d[i]).contains(x);
        assert(s[i] == d[i]);
    } else {
        assert(b[q - a.len()] == x);
        assert(s[s.len() - 1] == s.last());
        assert(f(s[s.len() - 1]).contains(x));
    }
}

/// A connection touches what it is connected to at both ends: whatever instance or
/// external system a connection of the environment reaches, at its source or at its
/// target, is never reported by L008 as untouched.
pub proof fn lemma_connected_never_orphaned(e: EnvironmentView, k: int, id: Seq<char>)
    requires
        0 <= k < e.connections.len(),
        touches(resolve_spec(e, e.connections[k].from), id) || touches(resolve_spec(e, e.connections[k].to), id),
    ensures
        forall|f: FindingView| #[trigger] orphans(e).contains(f) ==> f.subject != id,
{
    assert(touched(e, id));
    assert forall|f: FindingView| #[trigger] orphans(e).contains(f) implies f.subject != id by {
        let a = flat(env_instances(e), orphan_instance_fn(e));
        let b = flat(e.systems, orphan_landing_fn(e));
        let q = choose|q: int| 0 <= q < (a + b).len() && (a + b)[q] == f;
        if q < a.len() {
            assert(a[q] == f);
            lemma_flat_member(env_instances(e), orphan_instance_fn(e), f);
            let i = choose|i: int| 0 <= i < env_instances(e).len() && #[trigger] (orphan_instance_fn(e))(env_instances(e)[i]).contains(f);
            let inst = env_instances(e)[i];
            assert(orphan_instance(e, inst).contains(f));
        } else {
            assert(b[q - a.len()] == f);
            lemma_flat_member(e.systems, orphan_landing_fn(e), f);
            let i = choose|i: int| 0 <= i < e.systems.len() && #[trigger] (orphan_landing_fn(e))(e.systems[i]).contains(f);
            assert(orphan_landing(e, e.systems[i]).contains(f));
        }
    }
}

/// The source and the target instance named by a connection are never orphans.
pub proof fn lemma_connection_ends_not_orphaned(e: EnvironmentView, k: int)
    requires
        0 <= k < e.connections.len(),
    ensures
        e.connections[k].from matches EndpointingView::Instance { target: InstanceRefView::One(id), .. }
            ==> forall|f: FindingView| #[trigger] orphans(e).contains(f) ==> f.subject != id,
        e.connections[k].to matches EndpointingView::Instance { target: InstanceRefView::One(id), .. }
            ==> forall|f: FindingView| #[trigger] orphans(e).contains(f) ==> f.subject != id,
{
    if let EndpointingView::Instance { target: InstanceRefView::One(id), .. } = e.connections[k].from {
        assert(resolve_spec(e, e.connections[k].from)[0] == GraphPoint::Instance(id));
        lemma_connected_never_orphaned(e, k, id);
    }
    if let EndpointingView::Instance { target: InstanceRefView::One(id), .. } = e.connections[k].to {
        assert(resolve_spec(e, e.connections[k].to)[0] == GraphPoint::Instance(id));
        lemma_connected_never_orphaned(e, k, id);
    }
}

} // verus!
