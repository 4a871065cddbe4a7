use loom_core::id::Id;
use loom_core::reconcile::{DiagramElement, DifferenceKind, ElementKind, ModelElement, SyncSnapshot, reconcile, settled_snapshot};

fn model_of(pairs: &[(&str, &str)]) -> Vec<ModelElement> {
    pairs
        .iter()
        .map(|(id, label)| ModelElement {
            id: Id::new(*id),
            kind: ElementKind::ContainerInstance,
            label: (*label).into(),
        })
        .collect()
}

fn diagram_of(pairs: &[(&str, &str)]) -> Vec<DiagramElement> {
    pairs
        .iter()
        .map(|(id, label)| DiagramElement {
            id: Id::new(*id),
            label: (*label).into(),
        })
        .collect()
}

fn snapshot_of(pairs: &[(&str, &str)]) -> SyncSnapshot {
    SyncSnapshot {
        elements: diagram_of(pairs),
    }
}

#[test]
fn no_difference_when_all_three_agree() {
    let diffs = reconcile(
        &model_of(&[("a", "redis-01")]),
        &diagram_of(&[("a", "redis-01")]),
        &snapshot_of(&[("a", "redis-01")]),
    );
    assert!(diffs.is_empty());
}

#[test]
fn removed_from_the_diagram() {
    let diffs = reconcile(
        &model_of(&[("a", "redis-01")]),
        &diagram_of(&[]),
        &snapshot_of(&[("a", "redis-01")]),
    );
    assert_eq!(diffs.len(), 1);
    assert_eq!(diffs[0].kind, DifferenceKind::RemovedFromDiagram);
}

#[test]
fn added_to_the_model() {
    // 跟上面那個測試的差別只在 base 有沒有這個元素——
    // 沒有 base 就分不出這兩種情況。
    let diffs = reconcile(&model_of(&[("a", "redis-01")]), &diagram_of(&[]), &snapshot_of(&[]));
    assert_eq!(diffs.len(), 1);
    assert_eq!(
        diffs[0].kind,
        DifferenceKind::AddedToModel {
            kind: ElementKind::ContainerInstance
        }
    );
}

#[test]
fn removed_from_the_model_but_still_drawn() {
    let diffs = reconcile(
        &model_of(&[]),
        &diagram_of(&[("a", "redis-01")]),
        &snapshot_of(&[("a", "redis-01")]),
    );
    assert_eq!(diffs[0].kind, DifferenceKind::RemovedFromModel);
}

#[test]
fn a_drawn_shape_the_model_does_not_know() {
    let diffs = reconcile(&model_of(&[]), &diagram_of(&[("a", "redis-01")]), &snapshot_of(&[]));
    assert_eq!(diffs[0].kind, DifferenceKind::AddedToDiagram);
}

#[test]
fn removed_on_both_sides_is_agreement() {
    let diffs = reconcile(&model_of(&[]), &diagram_of(&[]), &snapshot_of(&[("a", "redis-01")]));
    assert!(diffs.is_empty());
}

#[test]
fn renamed_in_the_model_only() {
    let diffs = reconcile(
        &model_of(&[("a", "redis-primary")]),
        &diagram_of(&[("a", "redis-01")]),
        &snapshot_of(&[("a", "redis-01")]),
    );
    assert_eq!(
        diffs[0].kind,
        DifferenceKind::RenamedInModel {
            from: "redis-01".into(),
            to: "redis-primary".into()
        }
    );
}

#[test]
fn renamed_in_the_diagram_only() {
    let diffs = reconcile(
        &model_of(&[("a", "redis-01")]),
        &diagram_of(&[("a", "快取主機")]),
        &snapshot_of(&[("a", "redis-01")]),
    );
    assert_eq!(
        diffs[0].kind,
        DifferenceKind::RenamedInDiagram {
            from: "redis-01".into(),
            to: "快取主機".into()
        }
    );
}

#[test]
fn renamed_differently_on_both_sides_is_a_conflict() {
    let diffs = reconcile(
        &model_of(&[("a", "redis-primary")]),
        &diagram_of(&[("a", "快取主機")]),
        &snapshot_of(&[("a", "redis-01")]),
    );
    assert_eq!(
        diffs[0].kind,
        DifferenceKind::RenameConflict {
            base: Some("redis-01".into()),
            model: "redis-primary".into(),
            diagram: "快取主機".into(),
        }
    );
    assert!(diffs[0].kind.needs_human());
}

#[test]
fn renamed_alike_on_both_sides_is_no_conflict() {
    let diffs = reconcile(
        &model_of(&[("a", "快取主機")]),
        &diagram_of(&[("a", "快取主機")]),
        &snapshot_of(&[("a", "redis-01")]),
    );
    assert!(diffs.is_empty());
}

#[test]
fn results_come_sorted_by_id() {
    let diffs = reconcile(
        &model_of(&[("c", "三"), ("a", "一"), ("b", "二")]),
        &diagram_of(&[]),
        &snapshot_of(&[]),
    );
    let ids: Vec<&str> = diffs.iter().map(|d| d.id.as_str()).collect();
    assert_eq!(ids, vec!["a", "b", "c"]);
}

#[test]
fn the_new_base_keeps_only_what_both_agree_on() {
    let model = model_of(&[("a", "同意"), ("b", "model_of這樣叫"), ("c", "只有model_of有")]);
    let diagram = diagram_of(&[("a", "同意"), ("b", "diagram_of上那樣叫"), ("d", "只有diagram_of上有")]);

    let snapshot = settled_snapshot(&model, &diagram);

    let ids: Vec<&str> = snapshot.elements.iter().map(|e| e.id.as_str()).collect();
    assert_eq!(ids, vec!["a"], "還在爭議的東西不該進 base");
}

#[test]
fn after_settling_a_second_run_is_clean() {
    let model = model_of(&[("a", "redis-01")]);
    let diagram = diagram_of(&[("a", "redis-01")]);

    let base = settled_snapshot(&model, &diagram);
    assert!(reconcile(&model, &diagram, &base).is_empty());
}

#[test]
fn every_difference_offers_at_least_two_choices() {
    let every_case = [
        DifferenceKind::RemovedFromDiagram,
        DifferenceKind::RemovedFromModel,
        DifferenceKind::AddedToModel {
            kind: ElementKind::Connection,
        },
        DifferenceKind::AddedToDiagram,
        DifferenceKind::RenamedInModel {
            from: "a".into(),
            to: "b".into(),
        },
        DifferenceKind::RenamedInDiagram {
            from: "a".into(),
            to: "b".into(),
        },
        DifferenceKind::RenameConflict {
            base: None,
            model: "a".into(),
            diagram: "b".into(),
        },
    ];

    for kind in every_case {
        assert!(
            kind.resolutions().len() >= 2,
            "{kind:?} 只給一個選項，等於沒得選"
        );
    }
}
