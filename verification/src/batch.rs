//! Creating many instances at once.
//!
//! Twelve VMs with one Redis each: a name template plus a starting number makes them
//! in one go. Templates may hold two placeholders, in names, machine names and
//! addresses alike: `{n}`, the sequence number (from `start`, zero-padded to `pad`),
//! and `{ip}`, the address number (from `ip_start`, not padded). The two counters are
//! separate because they rarely line up: `redis-01` to `redis-12` may sit on
//! `10.0.1.11` to `10.0.1.22`.

use vstd::prelude::*;
use crate::environment::{ContainerInstance, ContainerInstanceView, DeploymentNode, DeploymentNodeView, Endpoint,
    EndpointView, Environment, EnvironmentView, NodeKind, env_instances, instance_refs_view, nodes_view};
use crate::id::Id;
use crate::logical::{Protocol, first_match, lemma_first_match, lemma_first_match_unique};
use crate::pattern::chars_of;
use crate::slug::slug_of;
use crate::text::{decimal, zero_padded, decimal_padded, decimal_text, string_of, push_char};

verus! {

/// The endpoint to create on each instance.
#[derive(Debug, Clone, PartialEq, Eq)]
pub struct EndpointPlan {
    /// The logical `EndpointDef` it realises.
    pub def: Id,
    pub slug: String,
    pub protocol: Protocol,
}

pub struct EndpointPlanView {
    pub def: Seq<char>,
    pub slug: Seq<char>,
    pub protocol: Protocol,
}

impl View for EndpointPlan {
    type V = EndpointPlanView;

    open spec fn view(&self) -> EndpointPlanView {
        EndpointPlanView { def: self.def@, slug: self.slug@, protocol: self.protocol }
    }
}

/// What one batch creates. Numbers are counts and starting points, not indices.
#[derive(Debug, Clone, PartialEq, Eq)]
pub struct BatchSpec {
    pub count: u32,
    /// The instances' name template, such as `redis-{n}`.
    pub name_template: String,
    /// The machines' name template, such as `vm-redis-{n}`.
    pub node_template: String,
    /// Where `{n}` starts.
    pub start: u32,
    /// How wide `{n}` is zero-padded: `2` gives `01`, `02`.
    pub pad: u32,
    /// The address template, such as `10.0.1.{ip}:6379`.
    pub address_template: String,
    /// Where `{ip}` starts.
    pub ip_start: u32,
    pub node_kind: NodeKind,
    pub container: Id,
    pub endpoint: EndpointPlan,
}

pub struct BatchSpecView {
    pub count: u32,
    pub name_template: Seq<char>,
    pub node_template: Seq<char>,
    pub start: u32,
    pub pad: u32,
    pub address_template: Seq<char>,
    pub ip_start: u32,
    pub node_kind: NodeKind,
    pub container: Seq<char>,
    pub endpoint: EndpointPlanView,
}

impl View for BatchSpec {
    type V = BatchSpecView;

    open spec fn view(&self) -> BatchSpecView {
        BatchSpecView {
            count: self.count,
            name_template: self.name_template@,
            node_template: self.node_template@,
            start: self.start,
            pad: self.pad,
            address_template: self.address_template@,
            ip_start: self.ip_start,
            node_kind: self.node_kind,
            container: self.container@,
            endpoint: self.endpoint@,
        }
    }
}

#[derive(Debug, Clone, PartialEq, Eq)]
pub enum BatchError {
    /// A count of zero: nothing to create.
    EmptyCount,
    /// A placeholder the templates do not know, most often a typo such as `{num}`.
    UnknownPlaceholder(String),
    /// A `{` with no `}` after it.
    UnclosedPlaceholder,
    /// The same name twice, usually a name template without `{n}`.
    DuplicateName(String),
    /// The environment already has a machine or instance of this name. Two `redis-01`
    /// would make a wildcard count two where the user sees one machine.
    Taken(String),
    /// The service is not in the logical layer.
    NoSuchContainer(Id),
    /// The endpoint definition does not belong to that service.
    EndpointNotOnContainer { container: String, endpoint: Id },
    /// A produced name is not a slug; with the suggested spelling.
    NotNormalized { produced: String, suggestion: String },
}

pub enum BatchErrorView {
    EmptyCount,
    UnknownPlaceholder(Seq<char>),
    UnclosedPlaceholder,
    DuplicateName(Seq<char>),
    Taken(Seq<char>),
    NoSuchContainer(Seq<char>),
    EndpointNotOnContainer { container: Seq<char>, endpoint: Seq<char> },
    NotNormalized { produced: Seq<char>, suggestion: Seq<char> },
}

impl View for BatchError {
    type V = BatchErrorView;

    open spec fn view(&self) -> BatchErrorView {
        match self {
            BatchError::EmptyCount => BatchErrorView::EmptyCount,
            BatchError::UnknownPlaceholder(s) => BatchErrorView::UnknownPlaceholder(s@),
            BatchError::UnclosedPlaceholder => BatchErrorView::UnclosedPlaceholder,
            BatchError::DuplicateName(s) => BatchErrorView::DuplicateName(s@),
            BatchError::Taken(s) => BatchErrorView::Taken(s@),
            BatchError::NoSuchContainer(id) => BatchErrorView::NoSuchContainer(id@),
            BatchError::EndpointNotOnContainer { container, endpoint } => BatchErrorView::EndpointNotOnContainer {
                container: container@,
                endpoint: endpoint@,
            },
            BatchError::NotNormalized { produced, suggestion } => BatchErrorView::NotNormalized {
                produced: produced@,
                suggestion: suggestion@,
            },
        }
    }
}

impl BatchError {
    /// The message shown to people.
    pub fn describe(&self) -> (r: String)
        ensures
            r@ == describe_spec(self@),
    {
        match self {
            BatchError::EmptyCount => "數量必須大於 0".to_string(),
            BatchError::UnknownPlaceholder(name) => {
                let mut t = "樣板裡有不認識的佔位符 {".to_string();
                t.append(name.as_str());
                t.append("}，只能用 {n} 或 {ip}");
                t
            },
            BatchError::UnclosedPlaceholder => "樣板裡的 { 沒有對應的 }".to_string(),
            BatchError::Taken(name) => {
                let mut t = name.clone();
                t.append(" 在這個環境已經有了");
                t
            },
            BatchError::NoSuchContainer(id) => {
                let mut t = "找不到服務 ".to_string();
                t.append(id.as_str());
                t
            },
            BatchError::EndpointNotOnContainer { container, endpoint } => {
                let mut t = "服務 ".to_string();
                t.append(container.as_str());
                t.append(" 上沒有接點定義 ");
                t.append(endpoint.as_str());
                t
            },
            BatchError::DuplicateName(name) => {
                let mut t = "產生出重複的名稱 ".to_string();
                t.append(name.as_str());
                t.append("，名稱樣板需要包含 {n}");
                t
            },
            BatchError::NotNormalized { produced, suggestion } => {
                let mut t = "名稱 ".to_string();
                t.append(produced.as_str());
                t.append(" 不是正規寫法，建議改成 ");
                t.append(suggestion.as_str());
                t
            },
        }
    }
}

pub open spec fn describe_spec(e: BatchErrorView) -> Seq<char> {
    match e {
        BatchErrorView::EmptyCount => "數量必須大於 0"@,
        BatchErrorView::UnknownPlaceholder(name) => "樣板裡有不認識的佔位符 {"@ + name + "}，只能用 {n} 或 {ip}"@,
        BatchErrorView::UnclosedPlaceholder => "樣板裡的 { 沒有對應的 }"@,
        BatchErrorView::Taken(name) => name + " 在這個環境已經有了"@,
        BatchErrorView::NoSuchContainer(id) => "找不到服務 "@ + id,
        BatchErrorView::EndpointNotOnContainer { container, endpoint } => "服務 "@ + container + " 上沒有接點定義 "@ + endpoint,
        BatchErrorView::DuplicateName(name) => "產生出重複的名稱 "@ + name + "，名稱樣板需要包含 {n}"@,
        BatchErrorView::NotNormalized { produced, suggestion } => "名稱 "@ + produced + " 不是正規寫法，建議改成 "@ + suggestion,
    }
}

// ---- templates ----

pub open spec fn is_char(c: char) -> spec_fn(char) -> bool {
    |x: char| x == c
}

/// What a placeholder name stands for, if it is one the templates know.
pub open spec fn placeholder(name: Seq<char>, n: u32, ip: u32, pad: u32) -> Option<Seq<char>> {
    if name == seq!['n'] {
        Some(zero_padded(decimal(n as nat), pad as nat))
    } else if name == seq!['i', 'p'] {
        Some(decimal(ip as nat))
    } else {
        None
    }
}

/// A template with its placeholders replaced, read left to right: the first `{` and
/// the first `}` after it enclose a name; the first bad placeholder is the error.
pub open spec fn render_spec(t: Seq<char>, n: u32, ip: u32, pad: u32) -> Result<Seq<char>, BatchErrorView>
    decreases t.len(),
{
    match first_match(t, is_char('{')) {
        None => Ok(t),
        Some(open) => {
            let after = t.skip(open + 1);
            match first_match(after, is_char('}')) {
                None => Err(BatchErrorView::UnclosedPlaceholder),
                Some(close) => match placeholder(after.take(close), n, ip, pad) {
                    None => Err(BatchErrorView::UnknownPlaceholder(after.take(close))),
                    Some(piece) => {
                        proof {
                            lemma_first_match(t, is_char('{'));
                            lemma_first_match(after, is_char('}'));
                        }
                        match render_spec(after.skip(close + 1), n, ip, pad) {
                            Ok(rest) => Ok(t.take(open) + piece + rest),
                            Err(e) => Err(e),
                        }
                    },
                },
            }
        },
    }
}

pub open spec fn prefixed(out: Seq<char>, r: Result<Seq<char>, BatchErrorView>) -> Result<Seq<char>, BatchErrorView> {
    match r {
        Ok(s) => Ok(out + s),
        Err(e) => Err(e),
    }
}

/// The first index at or after `from` holding `c`.
fn find_char(t: &Vec<char>, from: usize, c: char) -> (r: Option<usize>)
    requires
        from <= t@.len(),
    ensures
        match first_match(t@.skip(from as int), is_char(c)) {
            Some(k) => r == Some((from + k) as usize),
            None => r is None,
        },
{
    let ghost s = t@.skip(from as int);
    proof {
        lemma_first_match(s, is_char(c));
    }
    let mut i: usize = from;
    while i < t.len()
        invariant
            from <= i <= t@.len(),
            s == t@.skip(from as int),
            forall|j: int| 0 <= j < i - from ==> !(is_char(c))(#[trigger] s[j]),
        decreases t.len() - i,
    {
        assert(s[i - from] == t@[i as int]);
        if t[i] == c {
            proof {
                lemma_first_match_unique(s, is_char(c), i - from);
            }
            return Some(i);
        }
        i += 1;
    }
    None
}

fn append_chars(out: &mut String, t: &Vec<char>, from: usize, to: usize)
    requires
        from <= to <= t@.len(),
    ensures
        final(out)@ == old(out)@ + t@.subrange(from as int, to as int),
{
    let ghost start = out@;
    let mut i: usize = from;
    while i < to
        invariant
            from <= i <= to,
            to <= t@.len(),
            out@ == start + t@.subrange(from as int, i as int),
        decreases to - i,
    {
        push_char(out, t[i]);
        i += 1;
        assert(out@ =~= start + t@.subrange(from as int, i as int));
    }
}

fn chars_between(t: &Vec<char>, from: usize, to: usize) -> (r: String)
    requires
        from <= to <= t@.len(),
    ensures
        r@ == t@.subrange(from as int, to as int),
{
    let mut s = String::new();
    append_chars(&mut s, t, from, to);
    assert(s@ =~= t@.subrange(from as int, to as int));
    s
}

/// What the placeholder between `open` and `close` stands for.
fn piece_of(t: &Vec<char>, open: usize, close: usize, n: u32, ip: u32, pad: u32) -> (r: Result<String, BatchError>)
    requires
        open < close <= t@.len(),
    ensures
        match placeholder(t@.subrange(open + 1, close as int), n, ip, pad) {
            Some(p) => r matches Ok(x) && x@ == p,
            None => r matches Err(x) && x@ == BatchErrorView::UnknownPlaceholder(t@.subrange(open + 1, close as int)),
        },
{
    let ghost name = t@.subrange(open + 1, close as int);
    let width = close - open;
    let is_n = width == 2 && t[open + 1] == 'n';
    let is_ip = width == 3 && t[open + 1] == 'i' && t[open + 2] == 'p';
    proof {
        if is_n {
            assert(name =~= seq!['n']);
        } else if name == seq!['n'] {
            assert(name.len() == 1);
            assert(name[0] == t@[open + 1]);
        }
        if is_ip {
            assert(name =~= seq!['i', 'p']);
        } else if name == seq!['i', 'p'] {
            assert(name.len() == 2);
            assert(name[0] == t@[open + 1]);
            assert(name[1] == t@[open + 2]);
        }
    }
    if is_n {
        Ok(decimal_padded(n, pad))
    } else if is_ip {
        Ok(decimal_text(ip as u64))
    } else {
        Err(BatchError::UnknownPlaceholder(chars_between(t, open + 1, close)))
    }
}

/// Replaces `{n}` and `{ip}` in a template.
#[verifier::rlimit(40)]
fn render(template: &str, n: u32, ip: u32, pad: u32) -> (r: Result<String, BatchError>)
    ensures
        match render_spec(template@, n, ip, pad) {
            Ok(s) => r matches Ok(x) && x@ == s,
            Err(e) => r matches Err(x) && x@ == e,
        },
{
    let t = chars_of(template);
    let mut out = String::new();
    let mut pos: usize = 0;
    proof {
        assert(t@.skip(0) =~= t@);
        assert(Seq::<char>::empty() + t@ =~= t@);
        assert(prefixed(out@, render_spec(t@.skip(0), n, ip, pad)) =~~= render_spec(t@, n, ip, pad)) by {
            match render_spec(t@, n, ip, pad) {
                Ok(s) => {
                    assert(out@ + s =~= s);
                },
                Err(e) => {},
            }
        }
    }
    while pos <= t.len()
        invariant
            pos <= t@.len(),
            t@ == template@,
            render_spec(t@, n, ip, pad) == prefixed(out@, render_spec(t@.skip(pos as int), n, ip, pad)),
        decreases t.len() - pos,
    {
        let ghost rest = t@.skip(pos as int);
        proof {
            lemma_first_match(rest, is_char('{'));
        }
        match find_char(&t, pos, '{') {
            None => {
                append_chars(&mut out, &t, pos, t.len());
                proof {
                    assert(t@.subrange(pos as int, t@.len() as int) =~= rest);
                }
                return Ok(out);
            },
            Some(open) => {
                let ghost o = (open - pos) as int;
                let ghost after = rest.skip(o + 1);
                proof {
                    assert(after =~= t@.skip(open + 1));
                    lemma_first_match(after, is_char('}'));
                }
                match find_char(&t, open + 1, '}') {
                    None => {
                        return Err(BatchError::UnclosedPlaceholder);
                    },
                    Some(close) => {
                        let ghost c = (close - (open + 1)) as int;
                        let ghost name = after.take(c);
                        proof {
                            assert(name =~= t@.subrange(open + 1, close as int));
                        }
                        let ghost before = out@;
                        append_chars(&mut out, &t, pos, open);
                        proof {
                            assert(t@.subrange(pos as int, open as int) =~= rest.take(o));
                        }
                        match piece_of(&t, open, close, n, ip, pad) {
                            Ok(piece) => {
                                out.append(piece.as_str());
                            },
                            Err(e) => {
                                return Err(e);
                            },
                        }
                        proof {
                            let piece = placeholder(name, n, ip, pad).unwrap();
                            assert(out@ == before + rest.take(o) + piece);
                            assert(after.skip(c + 1) =~= t@.skip(close + 1));
                            match render_spec(after.skip(c + 1), n, ip, pad) {
                                Ok(s2) => {
                                    assert(render_spec(rest, n, ip, pad) == Ok::<Seq<char>, BatchErrorView>(rest.take(o) + piece + s2));
                                    assert(before + (rest.take(o) + piece + s2) =~= out@ + s2);
                                },
                                Err(e) => {},
                            }
                        }
                        pos = close + 1;
                    },
                }
            },
        }
    }
    proof {
        assert(false);
    }
    Ok(out)
}


// ---- expanding ----

/// `None` when the name is a slug; otherwise the error, with the suggested spelling.
pub open spec fn normalized_check(name: Seq<char>) -> Option<BatchErrorView> {
    if name.len() > 0 && slug_of(name) == name {
        None
    } else {
        Some(BatchErrorView::NotNormalized { produced: name, suggestion: slug_of(name) })
    }
}

/// A produced name must be a slug: it goes into file names, wildcards and imports.
/// It is refused rather than corrected, so that nothing a user typed changes silently.
fn check_normalized(name: &str) -> (r: Result<(), BatchError>)
    ensures
        match normalized_check(name@) {
            None => r is Ok,
            Some(e) => r matches Err(x) && x@ == e,
        },
{
    if crate::slug::is_normalized(name) {
        return Ok(());
    }
    Err(BatchError::NotNormalized { produced: name.to_string(), suggestion: crate::slug::slugify(name) })
}

pub type Item = (Seq<char>, Seq<char>, Seq<char>);

/// One machine of the batch: its instance's name, its own name and the address, in the
/// order they are made and checked. `prior` holds the instance names made before.
pub open spec fn item_spec(s: BatchSpecView, offset: nat, prior: Seq<Seq<char>>) -> Result<Item, BatchErrorView> {
    let n = (s.start + offset) as u32;
    let ip = (s.ip_start + offset) as u32;
    match render_spec(s.name_template, n, ip, s.pad) {
        Err(e) => Err(e),
        Ok(name) => match normalized_check(name) {
            Some(e) => Err(e),
            None => if prior.contains(name) {
                Err(BatchErrorView::DuplicateName(name))
            } else {
                match render_spec(s.node_template, n, ip, s.pad) {
                    Err(e) => Err(e),
                    Ok(node) => match normalized_check(node) {
                        Some(e) => Err(e),
                        None => match render_spec(s.address_template, n, ip, s.pad) {
                            Err(e) => Err(e),
                            Ok(address) => Ok((name, node, address)),
                        },
                    },
                }
            },
        },
    }
}

pub open spec fn item_names(items: Seq<Item>) -> Seq<Seq<char>> {
    items.map_values(|x: Item| x.0)
}

/// The first `k` machines, or the first error met on the way.
pub open spec fn items_upto(s: BatchSpecView, k: nat) -> Result<Seq<Item>, BatchErrorView>
    decreases k,
{
    if k == 0 {
        Ok(seq![])
    } else {
        match items_upto(s, (k - 1) as nat) {
            Err(e) => Err(e),
            Ok(prev) => match item_spec(s, (k - 1) as nat, item_names(prev)) {
                Err(e) => Err(e),
                Ok(t) => Ok(prev.push(t)),
            },
        }
    }
}

/// What a batch expands to, before ids: every machine, or the first error.
pub open spec fn expand_spec(s: BatchSpecView) -> Result<Seq<Item>, BatchErrorView> {
    if s.count == 0 {
        Err(BatchErrorView::EmptyCount)
    } else {
        items_upto(s, s.count as nat)
    }
}

/// Whether the batch refuses an item before any counter would pass 32 bits; a counter
/// past 32 bits cannot be computed, so only batches that get that far are left out.
pub open spec fn counters_fit(s: BatchSpecView) -> bool {
    forall|o: nat| o < s.count && (s.start + o > u32::MAX || s.ip_start + o > u32::MAX) ==> #[trigger] items_upto(s, o) is Err
}

/// Whether a machine is the one an item describes (ids aside): one instance on it,
/// with one endpoint, nothing below it.
pub open spec fn node_matches(s: BatchSpecView, item: Item, node: DeploymentNodeView) -> bool {
    &&& node.slug == item.1
    &&& node.kind == s.node_kind
    &&& node.children.len() == 0
    &&& node.memo.len() == 0
    &&& node.instances.len() == 1
    &&& node.instances[0].slug == item.0
    &&& node.instances[0].container == s.container
    &&& !node.instances[0].standalone
    &&& node.instances[0].memo.len() == 0
    &&& node.instances[0].endpoints.len() == 1
    &&& node.instances[0].endpoints[0].slug == s.endpoint.slug
    &&& node.instances[0].endpoints[0].def == Some(s.endpoint.def)
    &&& node.instances[0].endpoints[0].protocol == s.endpoint.protocol
    &&& node.instances[0].endpoints[0].address == Some(item.2)
}

/// Whether the ids of a machine came from the id factory, asked with the hints
/// `ep-<instance>`, `i-<instance>` and `n-<machine>`.
pub open spec fn ids_from<F: FnMut(&str) -> Id>(new_id: F, item: Item, node: DeploymentNode) -> bool {
    &&& exists|h: &str| h@ == "ep-"@ + item.0 && call_ensures(new_id, (h,), node.instances@[0].endpoints@[0].id)
    &&& exists|h: &str| h@ == "i-"@ + item.0 && call_ensures(new_id, (h,), node.instances@[0].id)
    &&& exists|h: &str| h@ == "n-"@ + item.1 && call_ensures(new_id, (h,), node.id)
}

proof fn lemma_err_sticks(s: BatchSpecView, k: nat, k2: nat)
    requires
        items_upto(s, k) is Err,
        k <= k2,
    ensures
        items_upto(s, k2) == items_upto(s, k),
    decreases k2 - k,
{
    if k2 > k {
        lemma_err_sticks(s, k, (k2 - 1) as nat);
    }
}

proof fn lemma_stop(s: BatchSpecView, offset: nat, items: Seq<Item>, e: BatchErrorView)
    requires
        s.count > 0,
        offset < s.count,
        items_upto(s, offset) == Ok::<Seq<Item>, BatchErrorView>(items),
        item_spec(s, offset, item_names(items)) == Err::<Item, BatchErrorView>(e),
    ensures
        expand_spec(s) == Err::<Seq<Item>, BatchErrorView>(e),
{
    assert(items_upto(s, offset + 1) == Err::<Seq<Item>, BatchErrorView>(e));
    lemma_err_sticks(s, offset + 1, s.count as nat);
}

fn contains_text(v: &Vec<String>, x: &String) -> (r: bool)
    ensures
        r == crate::table::texts_view(v@).contains(x@),
{
    let mut i: usize = 0;
    while i < v.len()
        invariant
            i <= v@.len(),
            forall|j: int| 0 <= j < i ==> v@[j]@ != x@,
        decreases v.len() - i,
    {
        if v[i] == *x {
            assert(crate::table::texts_view(v@)[i as int] == x@);
            return true;
        }
        i += 1;
    }
    proof {
        let tv = crate::table::texts_view(v@);
        if tv.contains(x@) {
            let j = choose|j: int| 0 <= j < tv.len() && tv[j] == x@;
            assert(v@[j]@ == x@);
        }
    }
    false
}

fn one_machine<F: FnMut(&str) -> Id>(spec: &BatchSpec, name: String, node_slug: String, address: String, new_id: &mut F) -> (r: DeploymentNode)
    requires
        forall|h: &str| call_requires(*old(new_id), (h,)),
    ensures
        node_matches(spec@, (name@, node_slug@, address@), r@),
        ids_from(*old(new_id), (name@, node_slug@, address@), r),
        *final(new_id) == *old(new_id),
{
    let ep_hint = crate::text::concat2("ep-", name.as_str());
    let ep_id = new_id(ep_hint.as_str());
    let i_hint = crate::text::concat2("i-", name.as_str());
    let i_id = new_id(i_hint.as_str());
    let n_hint = crate::text::concat2("n-", node_slug.as_str());
    let n_id = new_id(n_hint.as_str());
    let endpoint = Endpoint {
        id: ep_id,
        slug: spec.endpoint.slug.clone(),
        def: Some(spec.endpoint.def.copy()),
        protocol: spec.endpoint.protocol,
        address: Some(address),
    };
    let mut endpoints: Vec<Endpoint> = Vec::new();
    endpoints.push(endpoint);
    let instance = ContainerInstance {
        id: i_id,
        slug: name,
        container: spec.container.copy(),
        endpoints,
        standalone: false,
        memo: String::new(),
    };
    let mut instances: Vec<ContainerInstance> = Vec::new();
    instances.push(instance);
    let node = DeploymentNode {
        id: n_id,
        slug: node_slug,
        kind: spec.node_kind,
        children: Vec::new(),
        instances,
        memo: String::new(),
    };
    proof {
        crate::environment::lemma_children_view(node);
        assert(ep_hint@ == "ep-"@ + name@);
    }
    node
}

pub open spec fn nodes_match<F: FnMut(&str) -> Id>(s: BatchSpecView, new_id: F, items: Seq<Item>, nodes: Seq<DeploymentNode>) -> bool {
    &&& nodes.len() == items.len()
    &&& forall|k: int| 0 <= k < nodes.len() ==> node_matches(s, items[k], #[trigger] nodes[k]@)
    &&& forall|k: int| 0 <= k < nodes.len() ==> ids_from(new_id, items[k], #[trigger] nodes[k])
}

/// Expands a batch into machines, one instance on each.
///
/// `new_id` makes the ids; it is given a hint (`ep-<instance>`, `i-<instance>`,
/// `n-<machine>`, asked in that order for each machine) and the caller decides the id.
pub fn expand<F: FnMut(&str) -> Id>(spec: &BatchSpec, new_id: F) -> (r: Result<Vec<DeploymentNode>, BatchError>)
    requires
        counters_fit(spec@),
        forall|h: &str| call_requires(new_id, (h,)),
    ensures
        match expand_spec(spec@) {
            Ok(items) => r matches Ok(nodes) && nodes_match(spec@, new_id, items, nodes@),
            Err(e) => r matches Err(x) && x@ == e,
        },
{
    let ghost f0 = new_id;
    let mut new_id = new_id;
    if spec.count == 0 {
        return Err(BatchError::EmptyCount);
    }
    let ghost s = spec@;
    let mut nodes: Vec<DeploymentNode> = Vec::new();
    let mut seen: Vec<String> = Vec::new();
    let ghost mut items: Seq<Item> = seq![];
    let mut offset: u32 = 0;
    while offset < spec.count
        invariant
            s == spec@,
            counters_fit(s),
            s.count > 0,
            offset <= s.count,
            new_id == f0,
            forall|h: &str| call_requires(f0, (h,)),
            items_upto(s, offset as nat) == Ok::<Seq<Item>, BatchErrorView>(items),
            crate::table::texts_view(seen@) == item_names(items),
            nodes_match(s, f0, items, nodes@),
        decreases spec.count - offset,
    {
        let n = spec.start + offset;
        let ip = spec.ip_start + offset;
        let ghost prior = item_names(items);
        let name = match render(spec.name_template.as_str(), n, ip, spec.pad) {
            Ok(x) => x,
            Err(e) => {
                proof {
                    lemma_stop(s, offset as nat, items, e@);
                }
                return Err(e);
            },
        };
        match check_normalized(name.as_str()) {
            Ok(()) => {},
            Err(e) => {
                proof {
                    lemma_stop(s, offset as nat, items, e@);
                }
                return Err(e);
            },
        }
        if contains_text(&seen, &name) {
            proof {
                lemma_stop(s, offset as nat, items, BatchErrorView::DuplicateName(name@));
            }
            return Err(BatchError::DuplicateName(name));
        }
        let node_slug = match render(spec.node_template.as_str(), n, ip, spec.pad) {
            Ok(x) => x,
            Err(e) => {
                proof {
                    lemma_stop(s, offset as nat, items, e@);
                }
                return Err(e);
            },
        };
        match check_normalized(node_slug.as_str()) {
            Ok(()) => {},
            Err(e) => {
                proof {
                    lemma_stop(s, offset as nat, items, e@);
                }
                return Err(e);
            },
        }
        let address = match render(spec.address_template.as_str(), n, ip, spec.pad) {
            Ok(x) => x,
            Err(e) => {
                proof {
                    lemma_stop(s, offset as nat, items, e@);
                }
                return Err(e);
            },
        };
        let ghost item = (name@, node_slug@, address@);
        proof {
            assert(item_spec(s, offset as nat, prior) == Ok::<Item, BatchErrorView>(item));
        }
        let ghost seen_before = seen@;
        seen.push(name.clone());
        let node = one_machine(spec, name, node_slug, address, &mut new_id);
        let ghost before = nodes@;
        nodes.push(node);
        proof {
            let new_items = items.push(item);
            assert(crate::table::texts_view(seen@) =~= crate::table::texts_view(seen_before).push(item.0));
            assert(item_names(new_items) =~= item_names(items).push(item.0));
            assert forall|k: int| 0 <= k < nodes@.len() implies node_matches(s, new_items[k], #[trigger] nodes@[k]@) by {
                if k < before.len() {
                    assert(nodes@[k] == before[k]);
                }
            }
            assert forall|k: int| 0 <= k < nodes@.len() implies ids_from(f0, new_items[k], #[trigger] nodes@[k]) by {
                if k < before.len() {
                    assert(nodes@[k] == before[k]);
                }
            }
            items = new_items;
        }
        offset += 1;
    }
    Ok(nodes)
}


// ---- planning against an environment ----

/// What a batch would create, with where it goes. The ids are given out here already,
/// so that what a preview shows is what applying it creates.
#[derive(Debug, Clone, PartialEq, Eq)]
pub struct BatchPlan {
    pub nodes: Vec<DeploymentNode>,
    /// One line per instance for the preview: `vm-redis-01 / redis-01 @ 10.0.1.11:6379`.
    pub preview: Vec<String>,
}

/// The slugs of every deployment node of an environment, at any depth.
pub open spec fn node_slugs(e: EnvironmentView) -> Seq<Seq<char>> {
    crate::table::forest_entries(e.nodes).map_values(|x: (Seq<char>, Seq<char>)| x.1)
}

pub open spec fn instance_slugs(e: EnvironmentView) -> Seq<Seq<char>> {
    env_instances(e).map_values(|i: ContainerInstanceView| i.slug)
}

/// The first name of the batch that the environment already has: for each machine in
/// turn, its own name, then its instance's.
pub open spec fn first_taken(e: EnvironmentView, items: Seq<Item>) -> Option<Seq<char>>
    decreases items.len(),
{
    if items.len() == 0 {
        None
    } else {
        match first_taken(e, items.drop_last()) {
            Some(x) => Some(x),
            None => if node_slugs(e).contains(items.last().1) {
                Some(items.last().1)
            } else if instance_slugs(e).contains(items.last().0) {
                Some(items.last().0)
            } else {
                None
            },
        }
    }
}

pub open spec fn preview_line(item: Item) -> Seq<char> {
    item.1 + " / "@ + item.0 + " @ "@ + item.2
}

/// What a batch would create in an environment, or why not.
pub open spec fn plan_spec(l: crate::logical::LogicalView, e: EnvironmentView, s: BatchSpecView) -> Result<Seq<Item>, BatchErrorView> {
    match first_index_of_container(l, s.container) {
        None => Err(BatchErrorView::NoSuchContainer(s.container)),
        Some(k) => if !crate::logical::def_ids(l.containers[k].endpoints).contains(s.endpoint.def) {
            Err(BatchErrorView::EndpointNotOnContainer { container: l.containers[k].slug, endpoint: s.endpoint.def })
        } else {
            match expand_spec(s) {
                Err(x) => Err(x),
                Ok(items) => match first_taken(e, items) {
                    Some(name) => Err(BatchErrorView::Taken(name)),
                    None => Ok(items),
                },
            }
        },
    }
}

pub open spec fn first_index_of_container(l: crate::logical::LogicalView, id: Seq<char>) -> Option<int> {
    crate::logical::first_index(crate::logical::container_ids(l), id)
}

/// The slugs of every node, at any depth.
fn all_node_slugs(nodes: &Vec<DeploymentNode>) -> (r: Vec<String>)
    ensures
        crate::table::texts_view(r@) == crate::table::forest_entries(nodes_view(nodes@)).map_values(
            |x: (Seq<char>, Seq<char>)| x.1,
        ),
{
    let mut entries: Vec<(Id, String)> = Vec::new();
    crate::table::collect_entries(nodes, &mut entries);
    let ghost es = crate::table::forest_entries(nodes_view(nodes@));
    assert(crate::table::entries_view(entries@) =~= es);
    let mut out: Vec<String> = Vec::new();
    let mut i: usize = 0;
    while i < entries.len()
        invariant
            i <= entries@.len(),
            crate::table::entries_view(entries@) == es,
            crate::table::texts_view(out@) == es.take(i as int).map_values(|x: (Seq<char>, Seq<char>)| x.1),
        decreases entries.len() - i,
    {
        let ghost before = out@;
        out.push(entries[i].1.clone());
        proof {
            assert(es[i as int] == (entries@[i as int].0@, entries@[i as int].1@));
            assert(crate::table::texts_view(out@) =~= crate::table::texts_view(before).push(es[i as int].1));
            assert(es.take(i + 1) =~= es.take(i as int).push(es[i as int]));
            assert(es.take(i + 1).map_values(|x: (Seq<char>, Seq<char>)| x.1) =~= es.take(i as int).map_values(
                |x: (Seq<char>, Seq<char>)| x.1,
            ).push(es[i as int].1));
        }
        i += 1;
    }
    assert(es.take(i as int) =~= es);
    out
}

fn all_instance_slugs(e: &Environment) -> (r: Vec<String>)
    ensures
        crate::table::texts_view(r@) == instance_slugs(e@),
{
    let all = e.instances();
    let ghost xs = env_instances(e@);
    let mut out: Vec<String> = Vec::new();
    let mut i: usize = 0;
    while i < all.len()
        invariant
            i <= all@.len(),
            instance_refs_view(all@) == xs,
            xs == env_instances(e@),
            crate::table::texts_view(out@) == xs.take(i as int).map_values(|x: ContainerInstanceView| x.slug),
        decreases all.len() - i,
    {
        let ghost before = out@;
        out.push(all[i].slug.clone());
        proof {
            assert(xs[i as int] == all@[i as int]@);
            assert(crate::table::texts_view(out@) =~= crate::table::texts_view(before).push(xs[i as int].slug));
            assert(xs.take(i + 1) =~= xs.take(i as int).push(xs[i as int]));
            assert(xs.take(i + 1).map_values(|x: ContainerInstanceView| x.slug) =~= xs.take(i as int).map_values(
                |x: ContainerInstanceView| x.slug,
            ).push(xs[i as int].slug));
        }
        i += 1;
    }
    assert(xs.take(i as int) =~= xs);
    out
}

fn fresh_id(_hint: &str) -> (r: Id)
    ensures
        r@.len() == 36,
{
    Id::generate()
}

/// Works out what a batch would create in an environment and refuses names it already
/// has. Changes nothing. The ids are fresh random ones.
pub fn plan(project: &crate::Project, env: &Environment, spec: &BatchSpec) -> (r: Result<BatchPlan, BatchError>)
    requires
        counters_fit(spec@),
    ensures
        match plan_spec(project@.logical, env@, spec@) {
            Ok(items) => r matches Ok(pl) && pl.nodes@.len() == items.len()
                && (forall|k: int| 0 <= k < items.len() ==> node_matches(spec@, items[k], #[trigger] pl.nodes@[k]@))
                && crate::table::texts_view(pl.preview@) == items.map_values(|x: Item| preview_line(x)),
            Err(e) => r matches Err(x) && x@ == e,
        },
{
    proof {
        crate::logical::lemma_first_index(crate::logical::container_ids(project@.logical), spec@.container);
    }
    let container = match project.logical.container(&spec.container) {
        Some(c) => c,
        None => {
            return Err(BatchError::NoSuchContainer(spec.container.copy()));
        },
    };
    proof {
        crate::logical::lemma_first_index_contains(crate::logical::def_ids(container@.endpoints), spec@.endpoint.def);
    }
    if container.endpoint(&spec.endpoint.def).is_none() {
        return Err(BatchError::EndpointNotOnContainer {
            container: container.slug.clone(),
            endpoint: spec.endpoint.def.copy(),
        });
    }
    let nodes = match expand(spec, fresh_id) {
        Ok(x) => x,
        Err(e) => {
            return Err(e);
        },
    };
    let ghost items = expand_spec(spec@)->Ok_0;
    let existing_nodes = all_node_slugs(&env.nodes);
    let existing_instances = all_instance_slugs(env);
    let ghost outcome = match first_taken(env@, items) {
        Some(name) => Err(BatchErrorView::Taken(name)),
        None => Ok(items),
    };
    assert(plan_spec(project@.logical, env@, spec@) == outcome);
    let mut k: usize = 0;
    while k < nodes.len()
        invariant
            plan_spec(project@.logical, env@, spec@) == outcome,
            outcome == (match first_taken(env@, items) {
                Some(name) => Err(BatchErrorView::Taken(name)),
                None => Ok(items),
            }),
            k <= nodes@.len(),
            nodes@.len() == items.len(),
            forall|j: int| 0 <= j < items.len() ==> node_matches(spec@, items[j], #[trigger] nodes@[j]@),
            crate::table::texts_view(existing_nodes@) == node_slugs(env@),
            crate::table::texts_view(existing_instances@) == instance_slugs(env@),
            first_taken(env@, items.take(k as int)) is None,
        decreases nodes.len() - k,
    {
        let node = &nodes[k];
        proof {
            assert(node_matches(spec@, items[k as int], nodes@[k as int]@));
            assert(items.take(k + 1).drop_last() =~= items.take(k as int));
            assert(items.take(k + 1).last() == items[k as int]);
        }
        if contains_text(&existing_nodes, &node.slug) {
            proof {
                assert(first_taken(env@, items.take(k + 1)) == Some(items[k as int].1));
                lemma_taken_sticks_from(env@, items, k + 1);
            }
            return Err(BatchError::Taken(node.slug.clone()));
        }
        assert(node.instances@[0]@ == node@.instances[0]);
        if contains_text(&existing_instances, &node.instances[0].slug) {
            proof {
                assert(first_taken(env@, items.take(k + 1)) == Some(items[k as int].0));
                lemma_taken_sticks_from(env@, items, k + 1);
            }
            return Err(BatchError::Taken(node.instances[0].slug.clone()));
        }
        k += 1;
    }
    assert(items.take(k as int) =~= items);
    assert(plan_spec(project@.logical, env@, spec@) == Ok::<Seq<Item>, BatchErrorView>(items));
    let mut preview: Vec<String> = Vec::new();
    let mut k: usize = 0;
    while k < nodes.len()
        invariant
            k <= nodes@.len(),
            nodes@.len() == items.len(),
            forall|j: int| 0 <= j < items.len() ==> node_matches(spec@, items[j], #[trigger] nodes@[j]@),
            crate::table::texts_view(preview@) == items.take(k as int).map_values(|x: Item| preview_line(x)),
        decreases nodes.len() - k,
    {
        let node = &nodes[k];
        proof {
            assert(node_matches(spec@, items[k as int], nodes@[k as int]@));
            assert(node.instances@[0]@ == node@.instances[0]);
            assert(node.instances@[0].endpoints@[0]@ == node@.instances[0].endpoints[0]);
        }
        let inst = &node.instances[0];
        let address = match &inst.endpoints[0].address {
            Some(a) => a.clone(),
            None => "（沒有位址）".to_string(),
        };
        let mut line = node.slug.clone();
        line.append(" / ");
        line.append(inst.slug.as_str());
        line.append(" @ ");
        line.append(address.as_str());
        let ghost before = preview@;
        preview.push(line);
        proof {
            assert(crate::table::texts_view(preview@) =~= crate::table::texts_view(before).push(preview_line(items[k as int])));
            assert(items.take(k + 1) =~= items.take(k as int).push(items[k as int]));
            assert(items.take(k + 1).map_values(|x: Item| preview_line(x)) =~= items.take(k as int).map_values(
                |x: Item| preview_line(x),
            ).push(preview_line(items[k as int])));
        }
        k += 1;
    }
    assert(items.take(k as int) =~= items);
    Ok(BatchPlan { nodes, preview })
}

proof fn lemma_taken_sticks_from(e: EnvironmentView, items: Seq<Item>, k: int)
    requires
        0 < k <= items.len(),
        first_taken(e, items.take(k)) is Some,
    ensures
        first_taken(e, items) == first_taken(e, items.take(k)),
    decreases items.len() - k,
{
    if k < items.len() {
        assert(items.take(k + 1).drop_last() =~= items.take(k));
        lemma_taken_sticks_from(e, items, k + 1);
    } else {
        assert(items.take(k) =~= items);
    }
}

} // verus!
