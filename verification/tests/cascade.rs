use loom_core::Project;
use loom_core::cascade::{Plan, plan};
use loom_core::edit::{self, Edit};
use loom_core::environment::{Connection, ConnectionKind, ContainerInstance, DeploymentNode, Endpoint, Endpointing,
    Environment, InstanceRef, NodeKind};
use loom_core::id::Id;
use loom_core::lint::{self, Rule};
use loom_core::logical::{Container, EndpointDef, Logical, Protocol, Relationship, RelationshipEnd, SoftwareSystem};
use loom_core::resource::{self, Resource};

/// 訂單系統：apache 連 redis，prod 裡各一台，一條連線把契約實現掉。
fn project_of() -> Project {
    let redis_ep = EndpointDef {
        id: Id::new("def-redis"),
        slug: "client-port".into(),
        protocol: Protocol::Tcp,
        memo: String::new(),
    };
    Project {
        id: Id::new("p"),
        slug: "shop".into(),
        name: "訂單".into(),
        logical: Logical {
            people: vec![],
            systems: vec![SoftwareSystem {
                id: Id::new("sys-shop"),
                slug: "shop".into(),
                name: "訂單系統".into(),
                external: false,
                endpoints: vec![],
                memo: String::new(),
            }],
            containers: vec![
                Container {
                    id: Id::new("c-apache"),
                    slug: "apache".into(),
                    name: "代理".into(),
                    system: Id::new("sys-shop"),
                    endpoints: vec![],
                    memo: String::new(),
                },
                Container {
                    id: Id::new("c-redis"),
                    slug: "redis".into(),
                    name: "快取".into(),
                    system: Id::new("sys-shop"),
                    endpoints: vec![redis_ep.clone()],
                    memo: String::new(),
                },
            ],
            relationships: vec![Relationship {
                id: Id::new("r-1"),
                slug: "apache-to-redis".into(),
                purpose: "讀寫快取".into(),
                from: RelationshipEnd::Container(Id::new("c-apache")),
                to: RelationshipEnd::Container(Id::new("c-redis")),
                to_endpoint: Id::new("def-redis"),
                memo: String::new(),
            }],
        },
        environments: vec![Environment {
            id: Id::new("env-prod"),
            slug: "prod".into(),
            name: "正式".into(),
            infra: vec![],
            systems: vec![],
            connections: vec![Connection {
                id: Id::new("conn-1"),
                serves: Id::new("r-1"),
                purpose: "讀寫快取".into(),
                kind: ConnectionKind::Primary,
                from: Endpointing::Instance {
                    target: InstanceRef::One(Id::new("i-apache")),
                    endpoint: None,
                },
                to: Endpointing::Instance {
                    target: InstanceRef::One(Id::new("i-redis")),
                    endpoint: Some(Id::new("def-redis")),
                },
                memo: String::new(),
            }],
            nodes: vec![
                DeploymentNode {
                    id: Id::new("n-apache"),
                    slug: "vm-apache".into(),
                    kind: NodeKind::VirtualMachine,
                    children: vec![],
                    instances: vec![ContainerInstance {
                        id: Id::new("i-apache"),
                        slug: "apache-01".into(),
                        container: Id::new("c-apache"),
                        standalone: false,
                        endpoints: vec![],
                        memo: String::new(),
                    }],
                    memo: String::new(),
                },
                DeploymentNode {
                    id: Id::new("n-redis"),
                    slug: "vm-redis".into(),
                    kind: NodeKind::VirtualMachine,
                    children: vec![],
                    instances: vec![ContainerInstance {
                        id: Id::new("i-redis"),
                        slug: "redis-01".into(),
                        container: Id::new("c-redis"),
                        standalone: false,
                        endpoints: vec![Endpoint {
                            id: Id::new("ep-redis"),
                            slug: "client-port".into(),
                            def: Some(Id::new("def-redis")),
                            protocol: Protocol::Tcp,
                            address: Some("10.0.1.11:6379".into()),
                        }],
                        memo: String::new(),
                    }],
                    memo: String::new(),
                },
            ],
            memo: String::new(),
        }],
        memo: String::new(),
    }
}

fn delete(project: &Project, id: &str) -> Edit {
    Edit::DeleteResource(resource::find(project, &Id::new(id)).expect("測試資料裡沒這個"))
}

fn names(plan: &Plan) -> Vec<&str> {
    plan.cascaded.iter().map(|r| r.what.as_str()).collect()
}

#[test]
fn deleting_a_container_sweeps_up_everything_that_pointed_at_it() {
    // 這就是「一個一個刪要三十趟」的最小版本：刪掉 redis 這個服務，
    // 契約、連線、服務實體全都變成廢的。
    let p = project_of();
    let plan = plan(&p, &[delete(&p, "c-redis")]).unwrap();

    let swept = names(&plan);
    assert!(swept.contains(&"契約 apache-to-redis"), "{swept:?}");
    assert!(swept.contains(&"服務實體 redis-01"), "{swept:?}");
    assert!(
        swept.iter().any(|s| s.starts_with("prod 的一條連線")),
        "連線指到不存在的契約了，應該一起掃掉：{swept:?}"
    );
}

#[test]
fn the_machine_stays_because_an_empty_machine_is_not_broken() {
    // 只掃「壞掉的」，不掃「空掉的」。一台沒有服務的機器是合法狀態
    // ——他可能正要換上別的服務。掃掉的話那是替使用者做決定。
    let p = project_of();
    let plan = plan(&p, &[delete(&p, "c-redis")]).unwrap();
    assert!(
        !names(&plan).contains(&"機器 vm-redis"),
        "空的機器被誤掃了：{:?}",
        names(&plan)
    );
}

#[test]
fn applying_the_whole_plan_leaves_nothing_broken() {
    // 這是連帶刪除唯一的驗收標準：掃完之後 lint 不該再有懸空參照。
    let p = project_of();
    let seeds = vec![delete(&p, "c-redis")];
    let plan = plan(&p, &seeds).unwrap();

    let mut after = p.clone();
    let all: Vec<Edit> = seeds
        .into_iter()
        .chain(plan.cascaded.iter().map(|r| r.edit.clone()))
        .collect();
    edit::apply(&mut after, &Edit::Batch(all)).unwrap();

    let dangling: Vec<_> = lint::lint(&after)
        .into_iter()
        .filter(|f| matches!(f.rule, Rule::L003 | Rule::L012))
        .collect();
    assert!(dangling.is_empty(), "還有懸空的：{dangling:?}");
    assert!(plan.unresolved.is_empty(), "{:?}", plan.unresolved);
}

#[test]
fn deleting_a_system_reaches_all_the_way_down_to_the_connections() {
    // 系統 → 服務 → 契約 → 連線 → 服務實體。這條鏈就是使用者
    // 「想大改結構」時真正面對的東西。
    let p = project_of();
    let plan = plan(&p, &[delete(&p, "sys-shop")]).unwrap();

    let swept = names(&plan);
    assert!(swept.contains(&"服務 apache"), "{swept:?}");
    assert!(swept.contains(&"服務 redis"), "{swept:?}");
    assert!(swept.contains(&"服務實體 apache-01"), "{swept:?}");
    assert!(swept.contains(&"服務實體 redis-01"), "{swept:?}");
}

#[test]
fn planning_never_touches_the_original() {
    // 這是預覽，不是刪除。算完之後專案要跟算之前一模一樣，
    // 否則「先看過再決定」就是假的。
    let p = project_of();
    let before = p.clone();
    plan(&p, &[delete(&p, "sys-shop")]).unwrap();
    assert_eq!(p, before);
}

#[test]
fn a_clean_delete_cascades_to_nothing() {
    // 沒有東西指著一條連線，所以刪它就只是刪它。
    let p = project_of();
    let plan = plan(
        &p,
        &[Edit::DeleteConnection {
            environment: Id::new("env-prod"),
            connection: Id::new("conn-1"),
        }],
    )
    .unwrap();
    assert!(
        plan.cascaded.is_empty(),
        "不該連帶刪任何東西：{:?}",
        names(&plan)
    );
}

#[test]
fn sweeping_a_connection_does_not_lose_the_promise_it_was_keeping() {
    // 刪掉 apache 那台服務實體，那條連線就指到空氣了，會被掃掉。
    //
    // 這裡要釘住的是**契約留了下來**。連線沒了但契約還在，於是
    // 「prod 還沒實現這條契約」會變成一項 lint——資訊沒有消失，
    // 只是從「一條壞掉的連線」變回「一個待補的缺口」。
    //
    // 若連契約都一起掃掉，這個工具就真的漏了，而且沒有人會發現。
    let p = project_of();
    let seeds = vec![delete(&p, "i-apache")];
    let plan = plan(&p, &seeds).unwrap();

    assert!(
        names(&plan)
            .iter()
            .any(|s| s.starts_with("prod 的一條連線")),
        "指到空氣的連線沒被掃掉：{:?}",
        names(&plan)
    );
    assert!(
        !names(&plan).contains(&"契約 apache-to-redis"),
        "契約被連坐了：{:?}",
        names(&plan)
    );

    let mut after = p.clone();
    let all: Vec<Edit> = seeds
        .into_iter()
        .chain(plan.cascaded.iter().map(|r| r.edit.clone()))
        .collect();
    edit::apply(&mut after, &Edit::Batch(all)).unwrap();
    let complaints = lint::lint(&after);
    assert!(
        complaints.iter().any(|f| f.subject == Id::new("r-1")),
        "契約還在卻沒人抱怨 prod 沒實現它：{complaints:?}"
    );
}

#[test]
fn a_seed_that_does_not_exist_fails_instead_of_returning_an_empty_plan() {
    // 「按了沒反應」是最糟的失敗方式：使用者以為刪掉了。
    let p = project_of();
    let missing = Edit::DeleteResource(Resource::Container(Container {
        id: Id::new("根本沒這個"),
        slug: "ghost".into(),
        name: "".into(),
        system: Id::new("sys-shop"),
        endpoints: vec![],
        memo: String::new(),
    }));
    assert!(plan(&p, &[missing]).is_err());
}
