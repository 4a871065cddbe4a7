use loom_core::batch::{BatchError, BatchSpec, EndpointPlan, expand};
use loom_core::environment::{DeploymentNode, NodeKind};
use loom_core::id::Id;
use loom_core::logical::Protocol;

fn spec(count: u32) -> BatchSpec {
    BatchSpec {
        count,
        name_template: "redis-{n}".into(),
        node_template: "vm-redis-{n}".into(),
        start: 1,
        pad: 2,
        address_template: "10.0.1.{ip}:6379".into(),
        ip_start: 11,
        node_kind: NodeKind::VirtualMachine,
        container: Id::new("c-redis"),
        endpoint: EndpointPlan {
            def: Id::new("e-redis-client"),
            slug: "client-port".into(),
            protocol: Protocol::Tcp,
        },
    }
}

fn expanded(spec: &BatchSpec) -> Result<Vec<DeploymentNode>, BatchError> {
    expand(spec, |hint| Id::new(hint))
}

#[test]
fn creates_the_requested_number_of_nodes_one_instance_each() {
    let nodes = expanded(&spec(12)).unwrap();
    assert_eq!(nodes.len(), 12);
    assert!(nodes.iter().all(|n| n.instances.len() == 1));
}

#[test]
fn sequence_number_is_padded() {
    let nodes = expanded(&spec(12)).unwrap();
    assert_eq!(nodes[0].instances[0].slug, "redis-01");
    assert_eq!(nodes[8].instances[0].slug, "redis-09");
    assert_eq!(nodes[9].instances[0].slug, "redis-10");
}

#[test]
fn address_counter_is_separate_and_unpadded() {
    let nodes = expanded(&spec(12)).unwrap();
    let address_of = |i: usize| nodes[i].instances[0].endpoints[0].address.clone();
    assert_eq!(address_of(0).as_deref(), Some("10.0.1.11:6379"));
    assert_eq!(address_of(11).as_deref(), Some("10.0.1.22:6379"));
}

#[test]
fn node_slug_and_instance_slug_are_separate() {
    let nodes = expanded(&spec(2)).unwrap();
    assert_eq!(nodes[0].slug, "vm-redis-01");
    assert_eq!(nodes[0].instances[0].slug, "redis-01");
}

#[test]
fn both_placeholders_work_in_every_template() {
    let mut spec = spec(2);
    spec.name_template = "redis-{n}-{ip}".into();
    let nodes = expanded(&spec).unwrap();
    assert_eq!(nodes[0].instances[0].slug, "redis-01-11");
}

#[test]
fn zero_count_is_an_error() {
    assert_eq!(expanded(&spec(0)), Err(BatchError::EmptyCount));
}

#[test]
fn template_without_sequence_number_duplicates() {
    let mut spec = spec(3);
    spec.name_template = "redis".into();
    assert_eq!(
        expanded(&spec),
        Err(BatchError::DuplicateName("redis".into()))
    );
}

#[test]
fn single_item_needs_no_sequence_number() {
    let mut spec = spec(1);
    spec.name_template = "redis".into();
    spec.node_template = "vm-redis".into();
    assert_eq!(expanded(&spec).unwrap()[0].instances[0].slug, "redis");
}

#[test]
fn unknown_placeholder_is_rejected() {
    let mut spec = spec(1);
    spec.name_template = "redis-{num}".into();
    assert_eq!(
        expanded(&spec),
        Err(BatchError::UnknownPlaceholder("num".into()))
    );
}

#[test]
fn unclosed_brace_is_rejected() {
    let mut spec = spec(1);
    spec.name_template = "redis-{n".into();
    assert_eq!(expanded(&spec), Err(BatchError::UnclosedPlaceholder));
}

#[test]
fn rejects_unnormalised_names_with_a_suggestion() {
    let mut spec = spec(1);
    spec.name_template = "Redis Node {n}".into();
    assert_eq!(
        expanded(&spec),
        Err(BatchError::NotNormalized {
            produced: "Redis Node 01".into(),
            suggestion: "redis-node-01".into(),
        })
    );
}

#[test]
fn address_template_is_not_slug_normalised() {
    // 位址可以是 JDBC URL、socket 路徑、檔案路徑，不該被當成 slug 檢查。
    let mut spec = spec(1);
    spec.address_template = "jdbc:oracle:thin:@10.0.2.{ip}:1521/ORCL".into();
    let nodes = expanded(&spec).unwrap();
    assert_eq!(
        nodes[0].instances[0].endpoints[0].address.as_deref(),
        Some("jdbc:oracle:thin:@10.0.2.11:1521/ORCL")
    );
}

#[test]
fn the_caller_decides_the_id() {
    let mut count = 0;
    let nodes = expand(&spec(1), |hint| {
        count += 1;
        Id::new(&format!("uuid-{hint}"))
    })
    .unwrap();

    // 每個實例會要三個 id：endpoint、instance、node
    assert_eq!(count, 3);
    assert_eq!(nodes[0].id, Id::new("uuid-n-vm-redis-01"));
    assert_eq!(nodes[0].instances[0].id, Id::new("uuid-i-redis-01"));
}
