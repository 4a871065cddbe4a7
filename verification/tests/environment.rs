use loom_core::environment::{ContainerInstance, DeploymentNode, Environment, NodeKind};
use loom_core::id::Id;

fn instance(slug: &str) -> ContainerInstance {
    ContainerInstance {
        id: Id::new(&format!("i-{slug}")),
        slug: slug.into(),
        container: Id::new("c-redis"),
        endpoints: vec![],
        standalone: false,
        memo: String::new(),
    }
}

fn machine(slug: &str, instances: Vec<ContainerInstance>) -> DeploymentNode {
    DeploymentNode {
        id: Id::new(&format!("n-{slug}")),
        slug: slug.into(),
        kind: NodeKind::VirtualMachine,
        children: vec![],
        instances,
        memo: String::new(),
    }
}

fn environment(nodes: Vec<DeploymentNode>) -> Environment {
    Environment {
        id: Id::new("env-prod"),
        slug: "prod".into(),
        name: "正式environment".into(),
        nodes,
        infra: vec![],
        systems: vec![],
        connections: vec![],
        memo: String::new(),
    }
}

#[test]
fn walks_every_instance_under_nested_nodes() {
    let inner = machine("docker-host", vec![instance("redis-01")]);
    let mut outer = machine("rack-a", vec![instance("consul-01")]);
    outer.children.push(inner);

    let env = environment(vec![outer]);
    let mut slugs: Vec<_> = env.instances().iter().map(|i| i.slug.clone()).collect();
    slugs.sort();
    assert_eq!(slugs, vec!["consul-01", "redis-01"]);
}

#[test]
fn a_wildcard_selects_a_whole_group() {
    let env = environment(vec![machine(
        "vm",
        vec![instance("redis-01"), instance("redis-02"), instance("consul-01")],
    )]);
    assert_eq!(env.instances_matching("redis-*").len(), 2);
    assert_eq!(env.instances_matching("consul-*").len(), 1);
    assert_eq!(env.instances_matching("oracle-*").len(), 0);
}

#[test]
fn finds_an_instance_by_id() {
    let env = environment(vec![machine("vm", vec![instance("redis-01")])]);
    assert!(env.instance(&Id::new("i-redis-01")).is_some());
    assert!(env.instance(&Id::new("i-沒有這台")).is_none());
}

#[test]
fn instances_come_in_tree_order_parent_first() {
    let inner = machine("docker-host", vec![instance("redis-01")]);
    let mut outer = machine("rack-a", vec![instance("consul-01")]);
    outer.children.push(inner);
    let env = environment(vec![outer, machine("vm-b", vec![instance("apache-01")])]);
    let slugs: Vec<_> = env.instances().iter().map(|i| i.slug.clone()).collect();
    assert_eq!(slugs, vec!["consul-01", "redis-01", "apache-01"]);
}
