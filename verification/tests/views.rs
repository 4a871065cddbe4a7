use loom_core::Project;
use loom_core::connect::{choices, propose};
use loom_core::coverage::{Status, coverage};
use loom_core::environment::{Connection, ConnectionEnd, ConnectionKind, ContainerInstance, DeploymentNode,
    Endpointing, Environment, InstanceRef, NodeKind};
use loom_core::id::Id;
use loom_core::inventory::tables;
use loom_core::logical::{Container, EndpointDef, Logical, Person, Protocol, Relationship, RelationshipEnd, SoftwareSystem};
use loom_core::resource::Kind;
use loom_core::table::SideKind;

fn instance(id: &str, slug: &str, container: &str) -> ContainerInstance {
    ContainerInstance {
        id: Id::new(id),
        slug: slug.into(),
        container: Id::new(container),
        endpoints: vec![],
        standalone: false,
        memo: String::new(),
    }
}

fn vm(id: &str, slug: &str, instances: Vec<ContainerInstance>) -> DeploymentNode {
    DeploymentNode {
        id: Id::new(id),
        slug: slug.into(),
        kind: NodeKind::VirtualMachine,
        children: vec![],
        instances,
        memo: String::new(),
    }
}

/// apache 連 redis 的 client-port；prod 有一台 apache、兩台 redis，還沒有任何連線。
fn shop(connections: Vec<Connection>) -> Project {
    Project {
        id: Id::new("p"),
        slug: "shop".into(),
        name: "訂單".into(),
        memo: String::new(),
        logical: Logical {
            people: vec![Person { id: Id::new("u"), slug: "user".into(), name: "使用者".into(), memo: String::new() }],
            systems: vec![SoftwareSystem {
                id: Id::new("sys"),
                slug: "shop".into(),
                name: "訂單系統".into(),
                external: false,
                endpoints: vec![],
                memo: String::new(),
            }],
            containers: vec![
                Container {
                    id: Id::new("c-apache"),
                    slug: "apache".into(),
                    name: "代理".into(),
                    system: Id::new("sys"),
                    endpoints: vec![],
                    memo: String::new(),
                },
                Container {
                    id: Id::new("c-redis"),
                    slug: "redis".into(),
                    name: "快取".into(),
                    system: Id::new("sys"),
                    endpoints: vec![EndpointDef {
                        id: Id::new("def-redis"),
                        slug: "client-port".into(),
                        protocol: Protocol::Tcp,
                        memo: String::new(),
                    }],
                    memo: String::new(),
                },
            ],
            relationships: vec![Relationship {
                id: Id::new("r-1"),
                slug: "apache-to-redis".into(),
                purpose: "  讀寫快取 ".into(),
                from: RelationshipEnd::Container(Id::new("c-apache")),
                to: RelationshipEnd::Container(Id::new("c-redis")),
                to_endpoint: Id::new("def-redis"),
                memo: String::new(),
            }],
        },
        environments: vec![Environment {
            id: Id::new("env-prod"),
            slug: "prod".into(),
            name: "正式".into(),
            nodes: vec![
                vm("n-app", "app-vm-01", vec![instance("i-apache", "apache-01", "c-apache")]),
                vm("n-r1", "redis-vm-01", vec![instance("i-redis-1", "redis-01", "c-redis")]),
                vm("n-r2", "redis-vm-02", vec![instance("i-redis-2", "redis-02", "c-redis")]),
            ],
            infra: vec![],
            systems: vec![],
            connections,
            memo: String::new(),
        }],
    }
}

#[test]
fn a_proposal_reaches_a_group_through_a_wildcard() {
    let p = shop(vec![]);
    let proposal = propose(&p, &p.environments[0], &Id::new("r-1")).unwrap();
    assert_eq!(proposal.serves, Id::new("r-1"));
    assert_eq!(proposal.purpose, "讀寫快取");
    assert_eq!(
        proposal.from,
        Some(Endpointing::Instance { target: InstanceRef::One(Id::new("i-apache")), endpoint: None })
    );
    assert_eq!(
        proposal.to,
        Some(Endpointing::Instance {
            target: InstanceRef::Pattern { slug_pattern: "redis-*".into(), within: None, expect: Some(2) },
            endpoint: Some(Id::new("def-redis")),
        })
    );
    assert!(proposal.is_complete());
    assert_eq!(proposal.notes, vec!["擬的是直達的一段。若這條流量其實會經過 F5 之類的設備，請改成兩段。".to_string()]);
}

#[test]
fn no_relationship_no_proposal() {
    let p = shop(vec![]);
    assert!(propose(&p, &p.environments[0], &Id::new("nope")).is_none());
}

#[test]
fn a_service_with_no_machine_is_said_and_left_open() {
    let mut p = shop(vec![]);
    p.environments[0].nodes.truncate(1);
    let proposal = propose(&p, &p.environments[0], &Id::new("r-1")).unwrap();
    assert_eq!(proposal.to, None);
    assert!(!proposal.is_complete());
    assert_eq!(proposal.notes, vec!["目標的服務 redis 在 prod 一台都還沒建，要先建機器。".to_string()]);
}

#[test]
fn a_source_can_also_be_a_person_or_no_endpoint() {
    let p = shop(vec![]);
    let from = choices(&p, &p.environments[0], ConnectionEnd::From);
    let to = choices(&p, &p.environments[0], ConnectionEnd::To);
    assert!(from.iter().any(|c| c.label == "apache-01（不指定接點）" && c.group == "服務"));
    assert!(from.iter().any(|c| c.kind == SideKind::Person && c.label == "user" && c.group == "人"));
    assert!(to.iter().all(|c| c.kind != SideKind::Person));
    assert!(to.iter().all(|c| !c.label.contains("不指定接點")));
    assert!(to.iter().any(|c| c.label == "redis-* : client-port（2 台）" && c.group == "服務（整群）"));
    assert!(to.iter().any(|c| c.label == "redis-01 : client-port"));
    assert_eq!(from.len(), to.len() + 4);
}

#[test]
fn an_unrealised_relationship_is_a_missing_cell() {
    let p = shop(vec![]);
    let matrix = coverage(&p);
    assert_eq!(matrix.cells.len(), 1);
    let cell = matrix.cell(&Id::new("r-1"), &Id::new("env-prod")).unwrap();
    assert_eq!(cell.status, Status::Missing);
    assert_eq!(cell.segments, 0);
    assert_eq!(cell.targets, 0);
    assert_eq!(matrix.missing().len(), 1);
}

#[test]
fn a_wildcard_cell_counts_its_targets() {
    let conn = Connection {
        id: Id::new("conn"),
        serves: Id::new("r-1"),
        purpose: "讀寫快取".into(),
        kind: ConnectionKind::Primary,
        from: Endpointing::Instance { target: InstanceRef::One(Id::new("i-apache")), endpoint: None },
        to: Endpointing::Instance {
            target: InstanceRef::Pattern { slug_pattern: "redis-*".into(), within: None, expect: Some(2) },
            endpoint: Some(Id::new("def-redis")),
        },
        memo: String::new(),
    };
    let p = shop(vec![conn]);
    let matrix = coverage(&p);
    let cell = matrix.cell(&Id::new("r-1"), &Id::new("env-prod")).unwrap();
    assert_ne!(cell.status, Status::Missing);
    assert_eq!(cell.segments, 1);
    assert_eq!(cell.targets, 2);
    assert_eq!(cell.expect, Some(2));
    assert!(matrix.missing().is_empty());
}

#[test]
fn the_logical_tables_come_first_then_the_environments() {
    let p = shop(vec![]);
    let all = tables(&p, None);
    let titles: Vec<&str> = all.iter().map(|t| t.title.as_str()).collect();
    assert_eq!(titles, vec!["系統", "服務", "接點定義", "契約", "人", "環境"]);
    let with_env = tables(&p, Some(&Id::new("env-prod")));
    assert_eq!(with_env.len(), 9);
    assert_eq!(with_env[6].kind, Kind::Node);
    assert_eq!(with_env[6].environment, Some(Id::new("env-prod")));
    assert_eq!(tables(&p, Some(&Id::new("elsewhere"))).len(), 6);
}

#[test]
fn the_service_table_counts_machines_per_environment() {
    let p = shop(vec![]);
    let all = tables(&p, None);
    let services = &all[1];
    assert_eq!(services.columns, vec!["名稱", "顯示名", "所屬系統", "接點", "prod"]);
    assert_eq!(services.rows[0].cells, vec!["apache", "代理", "shop", "", "1 台"]);
    assert_eq!(services.rows[1].cells, vec!["redis", "快取", "shop", "client-port", "2 台"]);
    let systems = &all[0];
    assert_eq!(systems.rows[0].cells, vec!["shop", "訂單系統", "自家", "2"]);
    let contracts = &all[3];
    assert_eq!(contracts.rows[0].cells, vec!["apache-to-redis", "apache", "redis", "  讀寫快取 ", "—"]);
    for t in &all {
        for row in &t.rows {
            assert_eq!(row.cells.len(), t.columns.len());
        }
    }
}

#[test]
fn machines_are_listed_with_their_depth() {
    let mut p = shop(vec![]);
    let inner = p.environments[0].nodes.remove(2);
    p.environments[0].nodes[1].children.push(inner);
    let all = tables(&p, Some(&Id::new("env-prod")));
    let machines = &all[6];
    let rows: Vec<(&str, u32)> = machines.rows.iter().map(|r| (r.cells[0].as_str(), r.depth)).collect();
    assert_eq!(rows, vec![("app-vm-01", 0), ("redis-vm-01", 0), ("redis-vm-02", 1)]);
    assert_eq!(machines.rows[0].cells, vec!["app-vm-01", "VM", "apache-01"]);
    let env_row = &all[5].rows[0];
    assert_eq!(env_row.cells, vec!["prod", "正式", "3", "3", "0"]);
}
