
use loom_core::edit::{Edit, EditError};
use loom_core::environment::ConnectionEnd;
use loom_core::lint::Rule;
use loom_core::Project;
use loom_core::environment::{Connection, ConnectionKind, Endpointing, Environment};
use loom_core::history::{DEPTH, History};
use loom_core::id::Id;
use loom_core::logical::Logical;

fn project_of() -> Project {
    Project {
        id: Id::new("p"),
        slug: "p".into(),
        name: "測試".into(),
        logical: Logical {
            people: vec![],
            systems: vec![],
            containers: vec![],
            relationships: vec![],
        },
        environments: vec![Environment {
            id: Id::new("env-prod"),
            slug: "prod".into(),
            name: "正式".into(),
            nodes: vec![],
            infra: vec![],
            systems: vec![],
            connections: vec![Connection {
                id: Id::new("conn-1"),
                serves: Id::new("r-1"),
                purpose: "原本的用途".into(),
                kind: ConnectionKind::Primary,
                from: Endpointing::Person {
                    person: Id::new("who"),
                },
                to: Endpointing::Infra {
                    node: Id::new("f5"),
                    endpoint: None,
                },
                memo: String::new(),
            }],
            memo: String::new(),
        }],
        memo: String::new(),
    }
}

fn set_purpose(purpose: &str) -> Edit {
    Edit::SetPurpose {
        environment: Some(Id::new("env-prod")),
        subject: Id::new("conn-1"),
        purpose: purpose.into(),
    }
}

fn purpose_of(h: &History) -> String {
    h.project().environments[0].connections[0].purpose.clone()
}

#[test]
fn redo_lands_back_where_undo_started() {
    let mut h = History::opened(project_of());
    h.edit(&set_purpose("第一次")).unwrap();
    h.edit(&set_purpose("第二次")).unwrap();

    assert_eq!(purpose_of(&h), "第二次");
    assert!(h.undo());
    assert_eq!(purpose_of(&h), "第一次");
    assert!(h.undo());
    assert_eq!(purpose_of(&h), "原本的用途");
    assert!(!h.undo(), "已經到底了還說可以復原");

    assert!(h.redo());
    assert_eq!(purpose_of(&h), "第一次");
    assert!(h.redo());
    assert_eq!(purpose_of(&h), "第二次");
    assert!(!h.redo());
}

#[test]
fn undoing_back_to_the_saved_content_is_not_dirty() {
    // 這是計數器作法會答錯的那個情況：改了、又改回去，
    // 內容明明跟存檔時一模一樣，卻還逼使用者存一次。
    let mut h = History::opened(project_of());
    assert!(!h.is_dirty());

    h.edit(&set_purpose("改一下")).unwrap();
    assert!(h.is_dirty());

    h.undo();
    assert!(
        !h.is_dirty(),
        "內容已經跟磁碟一樣了，不該還說有未儲存的變更"
    );
}

#[test]
fn saving_clears_the_dirty_flag() {
    let mut h = History::opened(project_of());
    h.edit(&set_purpose("改一下")).unwrap();
    h.mark_saved();
    assert!(!h.is_dirty());

    // 存檔不影響復原——存過的東西一樣可以退回去。
    assert!(h.undo());
    assert!(h.is_dirty());
}

#[test]
fn a_failed_edit_leaves_no_empty_step() {
    let mut h = History::opened(project_of());
    let err = h.edit(&Edit::SetPurpose {
        environment: Some(Id::new("env-prod")),
        subject: Id::new("根本沒這條"),
        purpose: "x".into(),
    });

    assert!(err.is_err());
    assert!(!h.is_dirty(), "失敗的修改卻把專案標成未儲存");
    assert_eq!(h.undo_label(), None, "失敗的修改卻留下一個可以復原的步驟");
}

#[test]
fn a_new_edit_clears_the_redo_stack() {
    let mut h = History::opened(project_of());
    h.edit(&set_purpose("第一次")).unwrap();
    h.undo();
    h.edit(&set_purpose("走另一條路")).unwrap();

    assert_eq!(h.redo_label(), None, "分岔之後還留著舊的重做");
    assert_eq!(purpose_of(&h), "走另一條路");
}

#[test]
fn undo_label_names_the_last_action() {
    let mut h = History::opened(project_of());
    assert_eq!(h.undo_label(), None);

    h.edit(&set_purpose("x")).unwrap();
    assert_eq!(h.undo_label(), Some("修改用途"));

    h.edit(&Edit::DeleteConnection {
        environment: Id::new("env-prod"),
        connection: Id::new("conn-1"),
    })
    .unwrap();
    assert_eq!(h.undo_label(), Some("刪除連線"));

    h.undo();
    assert_eq!(h.redo_label(), Some("刪除連線"));
    assert_eq!(h.undo_label(), Some("修改用途"));
}

#[test]
fn wholesale_replacement_like_import_is_undoable() {
    let mut h = History::opened(project_of());
    let mut is_new = project_of();
    is_new.environments[0].connections.clear();

    h.replace(is_new, "匯入");
    assert!(h.project().environments[0].connections.is_empty());

    assert!(h.undo());
    assert_eq!(h.project().environments[0].connections.len(), 1);
}

#[test]
fn past_the_depth_limit_the_oldest_step_is_dropped() {
    let mut h = History::opened(project_of());
    for i in 0..DEPTH + 10 {
        h.edit(&set_purpose(&format!("第 {i} 次"))).unwrap();
    }

    let mut steps_undone = 0;
    while h.undo() {
        steps_undone += 1;
    }
    assert_eq!(steps_undone, DEPTH);
    // 退到底不會回到最初，因為最舊的幾步已經被丟掉了。
    assert_eq!(purpose_of(&h), "第 9 次");
}

#[test]
fn refused_edits_are_described_in_words() {
    assert_eq!(EditError::NoSuchConnection(Id::new("c1")).describe(), "找不到連線 c1");
    assert_eq!(EditError::NoSuchEnvironment(Id::new("prod")).describe(), "找不到環境 prod");
    assert_eq!(
        EditError::NotAPattern { connection: Id::new("c2"), side: ConnectionEnd::To }.describe(),
        "連線 c2 的目標端不是萬用字元，沒有期望數量可以設定"
    );
    assert_eq!(EditError::NoFix(Rule::L005).describe(), "L005 沒有填一格就能解決的修法");
    assert_eq!(EditError::AlreadyExists(Id::new("c3")).describe(), "c3 這條連線已經存在");
}

#[test]
fn filling_in_an_address_is_labelled_for_undo() {
    let e = Edit::SetAddress { environment: Id::new("prod"), endpoint: Id::new("ep"), address: Some("10.0.0.1".into()) };
    assert_eq!(e.label(), "填上位址");
}
