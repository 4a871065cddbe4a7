use loom_core::id::Id;
use loom_core::logical::{Container, EndpointDef, Logical, Protocol};

fn sample_container() -> Container {
    Container {
        id: Id::new("c-redis"),
        slug: "redis".into(),
        name: "Redis 快取".into(),
        system: Id::new("s-shop"),
        endpoints: vec![EndpointDef {
            id: Id::new("e-redis-client"),
            slug: "client-port".into(),
            protocol: Protocol::Tcp,
            memo: String::new(),
        }],
        memo: String::new(),
    }
}

#[test]
fn finds_container_endpoints_by_id() {
    let redis = sample_container();
    let found = redis.endpoint(&Id::new("e-redis-client"));
    assert_eq!(found.map(|e| e.slug.as_str()), Some("client-port"));
}

#[test]
fn missing_endpoint_returns_none() {
    let redis = sample_container();
    assert!(redis.endpoint(&Id::new("e-不存在")).is_none());
}

#[test]
fn logical_layer_looks_elements_up_by_id() {
    let logical = Logical {
        containers: vec![sample_container()],
        ..Default::default()
    };
    assert!(logical.container(&Id::new("c-redis")).is_some());
    assert!(logical.container(&Id::new("c-consul")).is_none());
}
