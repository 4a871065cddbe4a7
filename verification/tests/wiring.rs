use loom_core::Project;
use loom_core::environment::{Connection, ConnectionKind, Endpointing, Environment, InstanceRef};
use loom_core::id::Id;
use loom_core::wiring::links;
use loom_core::environment::{ContainerInstance, DeploymentNode, NodeKind};
use loom_core::logical::{Container, Logical, Person, Relationship, RelationshipEnd};

fn instance(slug: &str) -> ContainerInstance {
    ContainerInstance {
        id: Id::from(format!("i-{slug}")),
        slug: slug.into(),
        container: Id::from("c-app"),
        endpoints: vec![],
        standalone: false,
        memo: String::new(),
    }
}

fn node(slug: &str, instances: Vec<ContainerInstance>) -> DeploymentNode {
    DeploymentNode {
        id: Id::from(format!("n-{slug}")),
        slug: slug.into(),
        kind: NodeKind::VirtualMachine,
        children: vec![],
        instances,
        memo: String::new(),
    }
}

fn pattern(p: &str) -> Endpointing {
    Endpointing::Instance {
        target: InstanceRef::Pattern {
            slug_pattern: p.into(),
            within: None,
            expect: None,
        },
        endpoint: None,
    }
}

fn conn(id: &str, from: Endpointing, to: Endpointing) -> Connection {
    Connection {
        id: Id::from(id),
        serves: Id::from("r-1"),
        purpose: "測試".into(),
        kind: ConnectionKind::Primary,
        from,
        to,
        memo: String::new(),
    }
}

fn project_with(env: Environment) -> Project {
    Project {
        id: Id::from("p"),
        slug: "p".into(),
        name: "p".into(),
        logical: Logical {
            people: vec![Person {
                id: Id::from("per-1"),
                slug: "客戶".into(),
                name: "客戶".into(),
                memo: String::new(),
            }],
            systems: vec![],
            containers: vec![Container {
                id: Id::from("c-app"),
                slug: "app".into(),
                name: "app".into(),
                system: Id::from("s-1"),
                endpoints: vec![],
                memo: String::new(),
            }],
            relationships: vec![Relationship {
                id: Id::from("r-1"),
                slug: "r-1".into(),
                purpose: String::new(),
                from: RelationshipEnd::Container(Id::from("c-app")),
                to: RelationshipEnd::Container(Id::from("c-app")),
                to_endpoint: Id::from("ep-1"),
                memo: String::new(),
            }],
        },
        environments: vec![env],
        memo: String::new(),
    }
}

fn env(nodes: Vec<DeploymentNode>, connections: Vec<Connection>) -> Environment {
    Environment {
        id: Id::from("e-1"),
        slug: "prod".into(),
        name: "prod".into(),
        nodes,
        infra: vec![],
        systems: vec![],
        connections,
        memo: String::new(),
    }
}

#[test]
fn a_named_pair_is_one_line() {
    let e = env(
        vec![node("vm", vec![instance("a-01"), instance("b-01")])],
        vec![conn(
            "c-1",
            Endpointing::Instance {
                target: InstanceRef::One(Id::from("i-a-01")),
                endpoint: None,
            },
            Endpointing::Instance {
                target: InstanceRef::One(Id::from("i-b-01")),
                endpoint: None,
            },
        )],
    );
    let p = project_with(e.clone());
    assert_eq!(links(&p, &e).len(), 1);
}

#[test]
fn a_wildcard_on_both_ends_becomes_every_pair() {
    // 3 台連 3 台是 9 條，不是 1 條。lint 的可達性就是這樣建圖的，
    // 畫 1 條會讓人以為只有一對在通。
    let e = env(
        vec![node(
            "vm",
            vec![
                instance("apache-01"),
                instance("apache-02"),
                instance("apache-03"),
                instance("gateway-01"),
                instance("gateway-02"),
                instance("gateway-03"),
            ],
        )],
        vec![conn("c-1", pattern("apache-*"), pattern("gateway-*"))],
    );
    let p = project_with(e.clone());
    let out = links(&p, &e);
    assert_eq!(out.len(), 9);
    assert!(out.iter().all(|l| l.connection == Id::from("c-1")));
}

#[test]
fn every_line_of_one_connection_is_a_distinct_pair() {
    // 重複的一對會在圖上疊成一條粗線，看起來像少畫了。
    let e = env(
        vec![node(
            "vm",
            vec![instance("a-01"), instance("a-02"), instance("b-01")],
        )],
        vec![conn("c-1", pattern("a-*"), pattern("b-*"))],
    );
    let p = project_with(e.clone());
    let out = links(&p, &e);
    let pairs: std::collections::HashSet<_> = out.iter().map(|l| (&l.from, &l.to)).collect();
    assert_eq!(pairs.len(), out.len());
}

#[test]
fn a_wildcard_that_matches_nothing_draws_nothing() {
    // 沒有線比畫一條指向空氣的線好。缺了幾台是 lint 的事（L004），
    // 在這裡也算一次就會變成兩套說法。
    let e = env(
        vec![node("vm", vec![instance("a-01")])],
        vec![conn("c-1", pattern("a-*"), pattern("nobody-*"))],
    );
    let p = project_with(e.clone());
    assert!(links(&p, &e).is_empty());
}

#[test]
fn within_narrows_which_machines_the_line_reaches() {
    // 站點限定是這個模型防「機器搬家但總數不變」的招式。
    // 圖上如果不跟著限定，搬家後的圖看起來會完全正常。
    let mut main = node("main", vec![instance("redis-01")]);
    main.kind = NodeKind::Site;
    main.children = vec![node("vm-main", vec![instance("app-01")])];

    let mut away = node("away", vec![instance("redis-02")]);
    away.kind = NodeKind::Site;

    let e = env(
        vec![main, away],
        vec![conn(
            "c-1",
            pattern("app-*"),
            Endpointing::Instance {
                target: InstanceRef::Pattern {
                    slug_pattern: "redis-*".into(),
                    within: Some(Id::from("n-main")),
                    expect: None,
                },
                endpoint: None,
            },
        )],
    );
    let p = project_with(e.clone());
    let out = links(&p, &e);
    assert_eq!(out.len(), 1);
    assert_eq!(out[0].to, Id::from("i-redis-01"));
}

#[test]
fn a_person_end_is_flagged_because_people_do_not_live_in_the_environment() {
    // 人沒有實體。圖上不另外補一個形狀的話，這條線會指向不存在的東西。
    let e = env(
        vec![node("vm", vec![instance("a-01")])],
        vec![conn(
            "c-1",
            Endpointing::Person {
                person: Id::from("per-1"),
            },
            pattern("a-*"),
        )],
    );
    let p = project_with(e.clone());
    let out = links(&p, &e);
    assert_eq!(out.len(), 1);
    assert!(out[0].from_person);
    assert_eq!(out[0].from, Id::from("per-1"));
}

#[test]
fn a_fallback_line_keeps_its_kind() {
    // 備援線一樣要建、防火牆一樣要開，但畫成一樣重的話圖會很吵。
    let mut c = conn(
        "c-1",
        pattern("a-*"),
        Endpointing::Instance {
            target: InstanceRef::One(Id::from("i-b-01")),
            endpoint: None,
        },
    );
    c.kind = ConnectionKind::Fallback;
    let e = env(
        vec![node("vm", vec![instance("a-01"), instance("b-01")])],
        vec![c],
    );
    let p = project_with(e.clone());
    assert_eq!(links(&p, &e)[0].kind, ConnectionKind::Fallback);
}
