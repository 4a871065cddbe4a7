use loom_core::annotate::{Guess, Target, UnboundShape, annotate};
use loom_core::environment::Environment;
use loom_core::id::Id;
use loom_core::environment::{
    Connection, ContainerInstance, DeploymentNode, Endpointing, InstanceRef, NodeKind,
};

fn instance(slug: &str) -> ContainerInstance {
    ContainerInstance {
        id: Id::from(format!("i-{slug}")),
        slug: slug.into(),
        container: Id::from("c"),
        endpoints: vec![],
        standalone: false,
        memo: String::new(),
    }
}

/// 一台機器上兩個服務，外加一條連線。
fn fixture() -> Environment {
    Environment {
        id: Id::from("e"),
        slug: "prod".into(),
        name: "prod".into(),
        nodes: vec![DeploymentNode {
            id: Id::from("n-vm"),
            slug: "vm-01".into(),
            kind: NodeKind::VirtualMachine,
            children: vec![],
            instances: vec![instance("apache-01"), instance("redis-01")],
            memo: String::new(),
        }],
        infra: vec![],
        systems: vec![],
        connections: vec![Connection {
            id: Id::from("conn-1"),
            serves: Id::from("r-1"),
            purpose: "查快取".into(),
            kind: Default::default(),
            from: Endpointing::Instance {
                target: InstanceRef::One(Id::from("i-apache-01")),
                endpoint: None,
            },
            to: Endpointing::Instance {
                target: InstanceRef::One(Id::from("i-redis-01")),
                endpoint: None,
            },
            memo: String::new(),
        }],
        memo: String::new(),
    }
}

fn shape(cell: &str, label: &str) -> UnboundShape {
    UnboundShape {
        cell: cell.into(),
        label: label.into(),
        edge: false,
    }
}

fn edge(cell: &str, label: &str) -> UnboundShape {
    UnboundShape {
        edge: true,
        ..shape(cell, label)
    }
}

fn ids(targets: &[Target]) -> Vec<&str> {
    targets.iter().map(|t| t.id.as_str()).collect()
}

#[test]
fn already_assigned_elements_leave_the_list() {
    let a = annotate(&fixture(), &[Id::from("i-redis-01")], &[]);
    assert_eq!(ids(&a.shapes), vec!["n-vm", "i-apache-01"]);
}

#[test]
fn edges_and_boxes_get_different_targets() {
    // 一個方框指得成一條連線的話，對帳會多出一個永遠對不上的東西。
    let a = annotate(&fixture(), &[], &[]);
    assert_eq!(ids(&a.connections), vec!["conn-1"]);
    assert!(!ids(&a.shapes).contains(&"conn-1"));
}

#[test]
fn an_identical_name_is_guessed() {
    let a = annotate(&fixture(), &[], &[shape("c1", "redis-01")]);
    assert_eq!(
        a.guesses,
        vec![Guess {
            cell: "c1".into(),
            target: Id::from("i-redis-01")
        }]
    );
}

#[test]
fn a_chinese_label_matches_the_slug_inside_it() {
    // 圖上寫中文說明、模型裡存 slug，是最常見的一種對法。
    let a = annotate(&fixture(), &[], &[shape("c1", "Apache-01 叢集")]);
    assert_eq!(a.guesses[0].target, Id::from("i-apache-01"));
}

#[test]
fn two_shapes_wanting_the_same_element_get_no_guess() {
    // 正確答案是「不知道」。猜一個給人看，人會直接按下去。
    let a = annotate(
        &fixture(),
        &[],
        &[shape("c1", "redis-01"), shape("c2", "redis-01")],
    );
    assert!(a.guesses.is_empty());
}

#[test]
fn a_shape_matching_two_elements_gets_no_guess() {
    let env = Environment {
        nodes: vec![DeploymentNode {
            instances: vec![instance("redis-01"), instance("redis-02")],
            ..fixture().nodes[0].clone()
        }],
        ..fixture()
    };
    let a = annotate(&env, &[], &[shape("c1", "redis")]);
    assert!(a.guesses.is_empty());
}

#[test]
fn an_exact_match_wins_over_a_partial_one() {
    // 先跑局部相符的話，`vm-01` 會被 `vm-01 主機` 配走，
    // 而真正叫 `vm-01` 的那個框反而落空。
    let a = annotate(
        &fixture(),
        &[],
        &[shape("c1", "vm-01 主機"), shape("c2", "vm-01")],
    );
    let picked: Vec<&str> = a
        .guesses
        .iter()
        .filter(|g| g.target == Id::from("n-vm"))
        .map(|g| g.cell.as_str())
        .collect();
    assert_eq!(picked, vec!["c2"]);
}

#[test]
fn a_shape_with_no_text_is_never_guessed() {
    // 沒有文字的形狀通常是裝飾。它仍要列出來讓人看得到，但不能亂猜。
    let a = annotate(&fixture(), &[], &[shape("c1", "  ")]);
    assert!(a.guesses.is_empty());
}

#[test]
fn a_two_letter_name_is_too_short_to_match_partially() {
    let a = annotate(&fixture(), &[], &[shape("c1", "a")]);
    assert!(a.guesses.is_empty());
}

#[test]
fn a_line_is_guessed_against_connections_only() {
    // 線上寫「查快取」對得上那條連線的用途；同一段文字不該配到任何方框。
    let a = annotate(&fixture(), &[], &[edge("c1", "查快取")]);
    assert_eq!(a.guesses[0].target, Id::from("conn-1"));
}

#[test]
fn guesses_never_point_at_something_already_assigned() {
    let a = annotate(
        &fixture(),
        &[Id::from("i-redis-01")],
        &[shape("c1", "redis-01")],
    );
    assert!(a.guesses.is_empty());
}
