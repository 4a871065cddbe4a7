use loom_core::Project;
use loom_core::environment::Environment;
use loom_core::highlight::{Focus, contracts, highlight, shape_count};
use loom_core::id::Id;
use loom_core::environment::{
    Connection, ContainerInstance, DeploymentNode, Endpointing, InstanceRef, NodeKind,
};
use loom_core::logical::{
    Container, EndpointDef, Logical, Protocol, Relationship, RelationshipEnd,
};

fn instance(slug: &str) -> ContainerInstance {
    ContainerInstance {
        id: Id::from(format!("i-{slug}")),
        slug: slug.into(),
        container: Id::from("c-app"),
        endpoints: vec![],
        standalone: false,
        memo: String::new(),
    }
}

fn one(slug: &str) -> Endpointing {
    Endpointing::Instance {
        target: InstanceRef::One(Id::from(format!("i-{slug}"))),
        endpoint: None,
    }
}

/// 站點 → 機器 → 兩個服務，外加兩條契約各一條連線。
fn fixture() -> Project {
    let site = DeploymentNode {
        id: Id::from("n-site"),
        slug: "dc".into(),
        kind: NodeKind::Site,
        children: vec![DeploymentNode {
            id: Id::from("n-vm"),
            slug: "vm".into(),
            kind: NodeKind::VirtualMachine,
            children: vec![],
            instances: vec![instance("a"), instance("b"), instance("c")],
            memo: String::new(),
        }],
        instances: vec![],
        memo: String::new(),
    };

    let env = Environment {
        id: Id::from("e"),
        slug: "prod".into(),
        name: "prod".into(),
        nodes: vec![site],
        infra: vec![],
        systems: vec![],
        connections: vec![
            Connection {
                id: Id::from("conn-1"),
                serves: Id::from("r-1"),
                purpose: "有寫用途".into(),
                kind: Default::default(),
                from: one("a"),
                to: one("b"),
                memo: String::new(),
            },
            Connection {
                id: Id::from("conn-2"),
                serves: Id::from("r-2"),
                // 空用途會被 L007 叫，用來當「有問題」的那一條。
                purpose: String::new(),
                kind: Default::default(),
                from: one("a"),
                to: one("c"),
                memo: String::new(),
            },
        ],
        memo: String::new(),
    };

    let rel = |id: &str| Relationship {
        id: Id::from(id),
        slug: id.into(),
        purpose: "x".into(),
        from: RelationshipEnd::Container(Id::from("c-app")),
        to: RelationshipEnd::Container(Id::from("c-app")),
        to_endpoint: Id::from("ep"),
        memo: String::new(),
    };

    Project {
        id: Id::from("p"),
        slug: "p".into(),
        name: "p".into(),
        logical: Logical {
            people: vec![],
            systems: vec![],
            containers: vec![Container {
                id: Id::from("c-app"),
                slug: "app".into(),
                name: "app".into(),
                system: Id::from("s"),
                endpoints: vec![EndpointDef {
                    id: Id::from("ep"),
                    slug: "ep".into(),
                    protocol: Protocol::Tcp,
                    memo: String::new(),
                }],
                memo: String::new(),
            }],
            relationships: vec![rel("r-1"), rel("r-2")],
        },
        environments: vec![env],
        memo: String::new(),
    }
}

#[test]
fn nothing_checked_lights_everything() {
    // 空的當成「一條都不要」的話，一打開篩選面板整張圖就會先黑掉。
    let p = fixture();
    let h = highlight(&p, &Id::from("e"), &Focus::default());
    assert_eq!(h.connections.len(), 2);
    assert!(h.shapes.contains(&Id::from("i-a")));
    assert!(h.shapes.contains(&Id::from("i-c")));
}

#[test]
fn checking_one_contract_leaves_the_others_dark() {
    let p = fixture();
    let h = highlight(
        &p,
        &Id::from("e"),
        &Focus {
            relationships: vec![Id::from("r-1")],
            problems: false,
        },
    );
    assert_eq!(h.connections, vec![Id::from("conn-1")]);
    assert!(h.shapes.contains(&Id::from("i-b")));
    assert!(
        !h.shapes.contains(&Id::from("i-c")),
        "另一條契約的那端不該亮"
    );
}

#[test]
fn the_machine_and_the_site_light_up_too() {
    // 只亮兩端的話，圖上是幾個亮著的服務浮在一片灰裡——看不出它們
    // 跑在哪台機器上，而那正是部署圖唯一要回答的問題。
    let p = fixture();
    let h = highlight(
        &p,
        &Id::from("e"),
        &Focus {
            relationships: vec![Id::from("r-1")],
            problems: false,
        },
    );
    assert!(h.shapes.contains(&Id::from("n-vm")), "機器要亮");
    assert!(h.shapes.contains(&Id::from("n-site")), "站點也要亮");
}

#[test]
fn only_problems_keeps_the_ones_lint_complained_about() {
    let p = fixture();
    let h = highlight(
        &p,
        &Id::from("e"),
        &Focus {
            relationships: vec![],
            problems: true,
        },
    );
    assert_eq!(
        h.connections,
        vec![Id::from("conn-2")],
        "只有沒寫用途的那條"
    );
}

#[test]
fn the_two_conditions_are_and_not_or() {
    // 跟連線表上「搜尋 + 只看有問題」的組合方式一致。
    // 兩種組合法混在同一個畫面裡，人會算不準自己看到的是什麼。
    let p = fixture();
    let h = highlight(
        &p,
        &Id::from("e"),
        &Focus {
            relationships: vec![Id::from("r-1")],
            problems: true,
        },
    );
    assert!(h.connections.is_empty(), "r-1 那條沒問題，所以一條都不該亮");
}

#[test]
fn another_environment_does_not_leak_in() {
    // 一張圖只屬於一個環境。
    let p = fixture();
    let h = highlight(&p, &Id::from("不存在"), &Focus::default());
    assert!(h.connections.is_empty());
    assert!(h.shapes.is_empty());
}

#[test]
fn unimplemented_contracts_stay_in_the_list() {
    // 沒實現的契約正是最該被看見的。從清單裡消失的話它永遠不會被勾到，
    // 而「這個環境少了什麼」正是這工具存在的理由。
    let mut p = fixture();
    p.environments[0]
        .connections
        .retain(|c| c.serves != Id::from("r-2"));
    let list = contracts(&p, &Id::from("e"));
    let orphan = list
        .iter()
        .find(|c| c.relationship == Id::from("r-2"))
        .unwrap();
    assert_eq!(orphan.connections, 0);
}

#[test]
fn the_choice_list_says_which_contracts_are_in_trouble() {
    let p = fixture();
    let list = contracts(&p, &Id::from("e"));
    let by = |id: &str| {
        list.iter()
            .find(|c| c.relationship == Id::from(id))
            .unwrap()
    };
    assert!(!by("r-1").problems);
    assert!(by("r-2").problems, "沒寫用途的那條契約要標出來");
}

#[test]
fn the_shape_count_covers_nested_machines() {
    // 「亮了幾個 / 共幾個」的分母。漏算巢狀的話這個數字會一直說謊。
    let p = fixture();
    assert_eq!(shape_count(&p.environments[0]), 5, "站點 + 機器 + 三個服務");
}
