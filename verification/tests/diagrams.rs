use loom_core::diagrams::{Catalog, DiagramError, DiagramKind, Entry, check_unchanged, create_in, entry_of,
    fingerprint_of, is_generated, kind_of, list_of, migration_targets, path_of, rename_legacy, set_kind_in, CONTEXT,
    DEPLOYMENT, LEGACY_DEPLOYMENT};

#[test]
fn the_deployment_diagram_is_a_detail_one_and_the_context_diagram_is_not() {
    assert_eq!(kind_of(DEPLOYMENT), DiagramKind::Detail);
    assert_eq!(kind_of(CONTEXT), DiagramKind::Simple);
}

#[test]
fn only_the_two_generated_names_are_generated() {
    assert!(is_generated(DEPLOYMENT));
    assert!(is_generated(CONTEXT));
    assert!(!is_generated(LEGACY_DEPLOYMENT));
    assert!(!is_generated("my-slides"));
    assert_eq!(DiagramKind::default(), DiagramKind::Simple);
}

#[test]
fn a_diagram_lives_in_its_environments_folder() {
    assert_eq!(path_of("prod", DEPLOYMENT), "diagrams/prod/diagram-loom-deployment.drawio");
}

#[test]
fn the_fingerprint_is_stable_and_sixteen_hex_digits() {
    let a = fingerprint_of("people: []", "slug: prod");
    assert_eq!(a, fingerprint_of("people: []", "slug: prod"));
    assert_eq!(a.len(), 16);
    assert!(a.chars().all(|c| c.is_ascii_hexdigit() && !c.is_ascii_uppercase()));
    assert_ne!(a, fingerprint_of("people: []", "slug: test"));
    assert_ne!(a, fingerprint_of("people: [x]", "slug: prod"));
    assert_eq!(fingerprint_of("", ""), "af63c74c8601c8dd");
}

#[test]
fn user_diagrams_are_named_by_slug_and_not_like_the_generated_ones() {
    let mut catalog = Catalog::new();
    let info = create_in(&mut catalog, "prod", "My Slides", "m1").unwrap();
    assert_eq!(info.name, "my-slides");
    assert!(!info.generated);
    assert!(!info.stale);
    assert_eq!(info.kind, DiagramKind::Simple);
    assert_eq!(create_in(&mut catalog, "prod", "my slides", "m1").unwrap_err(), DiagramError::Duplicate("my-slides".into()));
    assert_eq!(create_in(&mut catalog, "prod", "!!!", "m1").unwrap_err(), DiagramError::EmptyName);
    assert_eq!(create_in(&mut catalog, "prod", "Diagram Loom Details", "m1").unwrap_err(), DiagramError::Reserved);
    assert_eq!(create_in(&mut catalog, "prod", DEPLOYMENT, "m1").unwrap_err(), DiagramError::Reserved);
    assert!(create_in(&mut catalog, "test", "my slides", "m1").is_ok());
    assert_eq!(catalog.environments.len(), 2);
    assert_eq!(catalog.environments[0].0, "prod");
}

#[test]
fn saving_again_only_renews_the_fingerprint() {
    let mut catalog = Catalog::new();
    catalog.remember("prod", DEPLOYMENT, "m1");
    set_kind_in(&mut catalog, "prod", "mine", DiagramKind::Detail).unwrap_err();
    catalog.remember("prod", "mine", "m1");
    set_kind_in(&mut catalog, "prod", "mine", DiagramKind::Detail).unwrap();
    catalog.remember("prod", "mine", "m2");
    let mine = entry_of(&catalog, "prod", "mine").unwrap();
    assert_eq!(mine, Entry { name: "mine".into(), model: "m2".into(), kind: DiagramKind::Detail });
    assert_eq!(entry_of(&catalog, "prod", "gone").unwrap_err(), DiagramError::NotFound("gone".into()));
}

#[test]
fn a_generated_diagrams_kind_cannot_change() {
    let mut catalog = Catalog::new();
    catalog.remember("prod", DEPLOYMENT, "m1");
    for name in [DEPLOYMENT, CONTEXT] {
        assert_eq!(set_kind_in(&mut catalog, "prod", name, DiagramKind::Simple).unwrap_err(), DiagramError::Reserved);
    }
    assert_eq!(catalog.of("prod")[0].kind, DiagramKind::Detail);
}

#[test]
fn the_list_marks_generated_and_stale_diagrams() {
    let mut catalog = Catalog::new();
    catalog.remember("prod", DEPLOYMENT, "old");
    catalog.remember("prod", "mine", "now");
    let infos = list_of(&catalog, "prod", "now");
    assert_eq!(infos.len(), 2);
    assert!(infos[0].generated && infos[0].stale);
    assert_eq!(infos[0].kind, DiagramKind::Detail);
    assert!(!infos[1].generated && !infos[1].stale);
    assert!(list_of(&catalog, "test", "now").is_empty());
}

#[test]
fn a_save_against_another_model_is_refused() {
    assert_eq!(check_unchanged("a", "b").unwrap_err(), DiagramError::ModelChanged);
    assert!(check_unchanged("a", "a").is_ok());
}

#[test]
fn the_old_name_is_carried_over_once() {
    let mut catalog = Catalog::new();
    catalog.remember("prod", LEGACY_DEPLOYMENT, "m1");
    catalog.remember("test", LEGACY_DEPLOYMENT, "m1");
    catalog.remember("test", DEPLOYMENT, "m2");
    assert_eq!(migration_targets(&catalog), vec!["prod".to_string()]);
    rename_legacy(&mut catalog, "prod");
    assert_eq!(catalog.of("prod")[0].name, DEPLOYMENT);
    assert_eq!(catalog.of("prod")[0].model, "m1");
    assert!(migration_targets(&catalog).is_empty());
}
