use loom_core::Project;
use loom_core::environment::{Endpointing, InstanceRef};
use loom_core::id::Id;
use loom_core::importer::{ImportError, ImportWarning, Sheet, import, row_from_pairs, rows_placeable, sheet_from_csv, sheet_from_xlsx,
    template_headers};
use loom_core::logical::Logical;
use loom_core::plan::{ChangeKind, Element, plan};

fn empty_project() -> Project {
    Project {
        id: Id::new("p"),
        slug: "shop".into(),
        name: "訂單".into(),
        memo: String::new(),
        logical: Logical { people: vec![], systems: vec![], containers: vec![], relationships: vec![] },
        environments: vec![],
    }
}

fn sheet_of(rows: &[&[(&str, &str)]]) -> Sheet {
    Sheet::new(template_headers(), rows.iter().map(|r| row_from_pairs(r)).collect())
}

fn direct_row() -> Vec<(&'static str, &'static str)> {
    vec![
        ("environment", "prod"),
        ("purpose", "讀寫快取"),
        ("from_node", "app-vm-01"),
        ("from_service", "apache"),
        ("to_node", "redis-vm-01"),
        ("to_service", "redis"),
        ("to_endpoint", "client-port"),
        ("to_address", "10.0.0.1:6379"),
        ("protocol", "tcp"),
    ]
}

#[test]
fn headers_are_trimmed_and_lowered() {
    let sheet = Sheet::new(vec!["  Environment ".to_string()], vec![vec![" prod ".to_string()]]);
    assert_eq!(sheet.headers(), &vec!["environment".to_string()]);
    assert_eq!(sheet.value(0, "environment"), "prod");
    assert_eq!(sheet.value(0, "purpose"), "");
    assert_eq!(sheet.row_count(), 1);
}

#[test]
fn template_lists_every_known_column() {
    let headers = template_headers();
    assert_eq!(headers.len(), 16);
    assert_eq!(headers[0], "environment");
    assert_eq!(headers[15], "note");
}

#[test]
fn a_later_pair_wins_and_missing_columns_stay_empty() {
    let row = row_from_pairs(&[("purpose", "a"), ("purpose", "b")]);
    assert_eq!(row.len(), 16);
    assert_eq!(row[1], "b");
    assert_eq!(row[0], "");
}

#[test]
fn a_header_without_required_columns_is_refused_whole() {
    let mut project = empty_project();
    let sheet = Sheet::new(vec!["environment".into(), "purpose".into()], vec![]);
    let err = import(&mut project, &sheet).unwrap_err();
    assert_eq!(
        err,
        ImportError::MissingColumns(vec![
            "from_node".into(),
            "to_node".into(),
            "to_endpoint".into(),
            "to_address".into(),
            "protocol".into()
        ])
    );
    assert_eq!(project, empty_project());
    assert_eq!(err.describe(), "表頭缺少必填欄位：from_node、to_node、to_endpoint、to_address、protocol");
}

#[test]
fn an_empty_required_value_names_the_row_and_column() {
    let mut row = direct_row();
    row.retain(|(c, _)| *c != "purpose");
    let err = import(&mut empty_project(), &sheet_of(&[&row])).unwrap_err();
    assert_eq!(err, ImportError::EmptyValue { row: 2, column: "purpose".into() });
    assert_eq!(err.describe(), "第 2 列的 purpose 不能是空的");
}

#[test]
fn one_machine_needs_its_address_but_a_wildcard_does_not() {
    let mut row = direct_row();
    row.retain(|(c, _)| *c != "to_address");
    let err = import(&mut empty_project(), &sheet_of(&[&row])).unwrap_err();
    assert_eq!(err, ImportError::EmptyValue { row: 2, column: "to_address".into() });

    let mut wildcard = row.clone();
    for pair in wildcard.iter_mut() {
        if pair.0 == "to_node" {
            pair.1 = "redis-vm-*";
        }
    }
    let mut project = empty_project();
    let report = import(&mut project, &sheet_of(&[&wildcard])).unwrap();
    assert_eq!(report.connections, 1);
    let conn = &project.environments[0].connections[0];
    match &conn.to {
        Endpointing::Instance { target: InstanceRef::Pattern { slug_pattern, within, expect }, .. } => {
            assert_eq!(slug_pattern, "redis-vm-*-redis");
            assert_eq!(*within, None);
            assert_eq!(*expect, None);
        }
        other => panic!("unexpected target {other:?}"),
    }
}

#[test]
fn a_name_that_is_not_a_slug_gets_a_suggestion() {
    let mut row = direct_row();
    row[0] = ("environment", "Prod Site");
    let err = import(&mut empty_project(), &sheet_of(&[&row])).unwrap_err();
    assert_eq!(
        err,
        ImportError::NotNormalized {
            row: 2,
            column: "environment".into(),
            produced: "Prod Site".into(),
            suggestion: "prod-site".into()
        }
    );
    assert_eq!(err.describe(), "第 2 列的 environment「Prod Site」不是正規寫法，建議改成 prod-site");
}

#[test]
fn protocols_ignore_case_and_dashes() {
    let mut row = direct_row();
    row[8] = ("protocol", "unix-socket");
    assert!(import(&mut empty_project(), &sheet_of(&[&row])).is_ok());
    row[8] = ("protocol", "http");
    let err = import(&mut empty_project(), &sheet_of(&[&row])).unwrap_err();
    assert_eq!(err, ImportError::UnknownProtocol { row: 2, value: "http".into() });
}

#[test]
fn expect_must_be_a_number() {
    let mut row = direct_row();
    row.push(("expect", "three"));
    let err = import(&mut empty_project(), &sheet_of(&[&row])).unwrap_err();
    assert_eq!(err, ImportError::BadExpect { row: 2, value: "three".into() });
    assert_eq!(err.describe(), "第 2 列的 expect「three」不是數字");
    let mut ok = direct_row();
    ok.push(("expect", "+3"));
    assert!(import(&mut empty_project(), &sheet_of(&[&ok])).is_ok());
}

#[test]
fn an_unknown_kind_is_reported_in_lower_case() {
    let mut row = direct_row();
    row.push(("kind", "Backup"));
    let err = import(&mut empty_project(), &sheet_of(&[&row])).unwrap_err();
    assert_eq!(err, ImportError::UnknownKind { row: 2, value: "backup".into() });
}

#[test]
fn a_row_to_a_device_needs_serves() {
    let mut row = direct_row();
    row.retain(|(c, _)| *c != "to_service");
    let err = import(&mut empty_project(), &sheet_of(&[&row])).unwrap_err();
    assert_eq!(err, ImportError::InfraRowNeedsServes { row: 2 });
    assert_eq!(err.describe(), "第 2 列的目標是設備，必須填 serves 指明它服務哪條邏輯連線");
}

#[test]
fn the_first_bad_row_is_the_one_reported() {
    let good = direct_row();
    let mut bad = direct_row();
    bad[8] = ("protocol", "smtp");
    let err = import(&mut empty_project(), &sheet_of(&[&good, &bad])).unwrap_err();
    assert_eq!(err, ImportError::UnknownProtocol { row: 3, value: "smtp".into() });
}

#[test]
fn one_row_builds_both_ends_and_the_connection() {
    let mut project = empty_project();
    let report = import(&mut project, &sheet_of(&[&direct_row()])).unwrap();
    assert_eq!(report.connections, 1);
    assert_eq!(report.connections_updated, 0);
    assert_eq!(report.environments_created, 1);
    assert_eq!(report.containers_created, 2);
    assert_eq!(report.instances_created, 2);
    assert!(report.warnings.is_empty());

    let env = &project.environments[0];
    assert_eq!(env.slug, "prod");
    let slugs: Vec<&str> = env.instances().iter().map(|i| i.slug.as_str()).collect();
    assert_eq!(slugs, vec!["app-vm-01-apache", "redis-vm-01-redis"]);
    assert_eq!(project.logical.relationships.len(), 1);
    assert_eq!(project.logical.relationships[0].slug, "apache-連-redis");
    assert_eq!(project.logical.systems.len(), 1);
    assert_eq!(project.logical.systems[0].slug, "shop");
    let redis = env.instances().into_iter().find(|i| i.slug == "redis-vm-01-redis").unwrap();
    assert_eq!(redis.endpoints[0].address.as_deref(), Some("10.0.0.1:6379"));
}

#[test]
fn importing_the_same_sheet_again_only_updates() {
    let mut project = empty_project();
    let sheet = sheet_of(&[&direct_row()]);
    import(&mut project, &sheet).unwrap();
    let again = import(&mut project, &sheet).unwrap();
    assert_eq!(again.connections, 0);
    assert_eq!(again.connections_updated, 1);
    assert_eq!(again.environments_created, 0);
    assert_eq!(again.containers_created, 0);
    assert_eq!(again.instances_created, 0);
    assert_eq!(project.environments[0].connections.len(), 1);
}

#[test]
fn a_differing_address_is_warned_about_and_the_first_kept() {
    let mut project = empty_project();
    import(&mut project, &sheet_of(&[&direct_row()])).unwrap();
    let mut moved = direct_row();
    moved[7] = ("to_address", "10.0.0.2:6379");
    let report = import(&mut project, &sheet_of(&[&moved])).unwrap();
    assert_eq!(
        report.warnings,
        vec![ImportWarning::AddressConflict {
            row: 2,
            endpoint: "client-port".into(),
            kept: "10.0.0.1:6379".into(),
            ignored: "10.0.0.2:6379".into()
        }]
    );
    assert_eq!(report.warnings[0].describe(), "第 2 列：client-port 已經是 10.0.0.1:6379，忽略不一致的 10.0.0.2:6379");
}

#[test]
fn unknown_columns_are_warned_about_first() {
    let mut headers = template_headers();
    headers.push("owner".into());
    let mut row = row_from_pairs(&direct_row());
    row.push("someone".into());
    let sheet = Sheet::new(headers, vec![row]);
    let report = import(&mut empty_project(), &sheet).unwrap();
    assert_eq!(report.warnings, vec![ImportWarning::UnknownColumn("owner".into())]);
    assert_eq!(report.warnings[0].describe(), "忽略認不得的欄位 owner");
}

#[test]
fn a_site_puts_the_machine_inside_it_and_moves_it_later() {
    let mut project = empty_project();
    import(&mut project, &sheet_of(&[&direct_row()])).unwrap();
    assert_eq!(project.environments[0].nodes.len(), 2);
    let mut sited = direct_row();
    sited.push(("to_site", "dc1"));
    import(&mut project, &sheet_of(&[&sited])).unwrap();
    let env = &project.environments[0];
    let site = env.nodes.iter().find(|n| n.slug == "dc1").unwrap();
    assert_eq!(site.children.len(), 1);
    assert_eq!(site.children[0].slug, "redis-vm-01");
    assert!(env.nodes.iter().all(|n| n.slug != "redis-vm-01"));
}

#[test]
fn nothing_that_was_there_is_removed() {
    let mut project = empty_project();
    import(&mut project, &sheet_of(&[&direct_row()])).unwrap();
    let before = project.clone();
    let mut other = direct_row();
    other[0] = ("environment", "test");
    import(&mut project, &sheet_of(&[&other])).unwrap();
    assert_eq!(project.environments[0], before.environments[0]);
    assert_eq!(project.environments.len(), 2);
    assert_eq!(project.logical.containers[..2], before.logical.containers[..]);
}

#[test]
fn the_preview_lists_what_a_first_import_adds() {
    let project = empty_project();
    let (preview, after) = plan(&project, &sheet_of(&[&direct_row()])).unwrap();
    assert_eq!(project, empty_project());
    assert_eq!(after.environments.len(), 1);
    assert_eq!(preview.environments, vec!["prod".to_string()]);
    assert_eq!(preview.unchanged, 0);
    assert!(preview.changes.iter().all(|c| c.kind == ChangeKind::Added));
    assert_eq!(preview.changes[0].element, Element::Environment);
    assert_eq!(preview.changes[0].label, "prod");
    assert_eq!(preview.changes[0].after, "prod");
    let kinds: Vec<Element> = preview.changes.iter().map(|c| c.element).collect();
    let mut sorted = kinds.clone();
    sorted.sort_by_key(|e| *e as u8);
    assert_eq!(kinds, sorted);
    assert!(preview.changes.iter().any(|c| c.element == Element::Address && c.after == "10.0.0.1:6379"));
}

#[test]
fn previewing_a_sheet_already_imported_changes_nothing() {
    let mut project = empty_project();
    let sheet = sheet_of(&[&direct_row()]);
    import(&mut project, &sheet).unwrap();
    let (preview, _) = plan(&project, &sheet).unwrap();
    assert!(preview.changes.is_empty());
    assert!(preview.unchanged > 0);
}

#[test]
fn a_changed_purpose_is_previewed_as_an_update() {
    let mut project = empty_project();
    import(&mut project, &sheet_of(&[&direct_row()])).unwrap();
    let mut row = direct_row();
    row[1] = ("purpose", "只讀");
    let (preview, _) = plan(&project, &sheet_of(&[&row])).unwrap();
    assert_eq!(preview.changes.len(), 1);
    assert_eq!(preview.changes[0].kind, ChangeKind::Updated);
    assert_eq!(preview.changes[0].element, Element::Connection);
    assert_eq!(preview.changes[0].label, "prod／apache-連-redis");
    assert_eq!(preview.changes[0].before.as_deref(), Some("讀寫快取"));
    assert_eq!(preview.changes[0].after, "只讀");
}

#[test]
fn every_created_connection_is_in_the_project() {
    let mut project = empty_project();
    let mut other = direct_row();
    other[0] = ("environment", "staging");
    other[1] = ("purpose", "另一條");
    let sheet = sheet_of(&[&direct_row(), &other]);
    let report = import(&mut project, &sheet).unwrap();
    assert_eq!(report.connections, 2);
    let total: usize = project.environments.iter().map(|e| e.connections.len()).sum();
    assert_eq!(total, 2);
    let slugs: Vec<&str> = project.environments.iter().map(|e| e.slug.as_str()).collect();
    assert!(slugs.contains(&"prod") && slugs.contains(&"staging"));
}

#[test]
fn a_csv_file_is_read_header_first() {
    let sheet = sheet_from_csv(b" Environment ,purpose\n prod ,x\n").unwrap();
    assert_eq!(sheet.headers(), &vec!["environment".to_string(), "purpose".to_string()]);
    assert_eq!(sheet.row_count(), 1);
    assert_eq!(sheet.value(0, "environment"), "prod");
}

#[test]
fn a_csv_with_ragged_rows_is_refused() {
    assert!(sheet_from_csv(b"a,b\n1\n").is_none());
}

#[test]
fn bytes_that_are_no_workbook_are_refused() {
    assert!(sheet_from_xlsx(b"not a workbook").is_none());
}

#[test]
fn a_missing_column_reads_empty_on_any_row() {
    let sheet = sheet_of(&[&direct_row()]);
    assert_eq!(sheet.value(7, "no-such-column"), "");
}

#[test]
fn a_site_named_like_its_machine_is_caught_only_where_the_import_gets() {
    let mut bad = direct_row();
    bad.push(("from_site", "app-vm-01"));
    assert!(!rows_placeable(&sheet_of(&[&direct_row(), &bad])));
    let mut refused = direct_row();
    refused[1] = ("purpose", "");
    assert!(rows_placeable(&sheet_of(&[&refused, &bad])));
}

#[test]
fn a_site_only_matters_where_a_service_is_placed() {
    let mut row = direct_row();
    row.retain(|(k, _)| *k != "from_service");
    row.push(("from_site", "app-vm-01"));
    row.push(("serves", "apache-連-redis"));
    assert!(rows_placeable(&sheet_of(&[&row])));
}

#[test]
fn importing_again_adds_no_connection_and_no_environment() {
    let mut project = empty_project();
    let sheet = sheet_of(&[&direct_row()]);
    import(&mut project, &sheet).unwrap();
    let again = import(&mut project, &sheet).unwrap();
    assert_eq!(again.connections, 0);
    assert_eq!(again.connections_updated, 1);
    assert_eq!(again.environments_created, 0);
    assert_eq!(project.environments.len(), 1);
    assert_eq!(project.environments[0].connections.len(), 1);
}
