use tacks::model::{format_priority, format_status, validate_close_reason};
use tacks::store::UpdateFields;
use tacks::{AppError, Status, Store, Task};

fn new_store() -> Store {
    let mut s = Store::new();
    s.set_config("prefix", "tk");
    s
}

fn create(s: &mut Store, title: &str) -> Task {
    s.create(title, 2, None, &Vec::new(), None).expect("create failed")
}

fn create_child(s: &mut Store, title: &str, parent: &str) -> Task {
    s.create(title, 2, None, &Vec::new(), Some(parent)).expect("create child failed")
}

#[test]
fn create_sets_fields() {
    let mut s = new_store();
    let tags = vec!["alpha".to_string(), "beta".to_string()];
    let t = s.create("First task", 1, Some("about it"), &tags, None).expect("create");
    assert_eq!(t.title, "First task");
    assert_eq!(t.priority, 1);
    assert_eq!(t.description.as_deref(), Some("about it"));
    assert_eq!(t.status, Status::Open);
    assert!(t.assignee.is_none());
    assert!(t.parent_id.is_none());
    assert_eq!(t.tags, tags);
    assert_eq!(t.created_at, t.updated_at);
    assert!(t.close_reason.is_none());
    assert!(t.notes.is_none());
    assert!(t.id.starts_with("tk-"));
    assert_eq!(t.id.len(), 7);
}

#[test]
fn create_rejects_empty_title() {
    let mut s = new_store();
    match s.create("", 2, None, &Vec::new(), None) {
        Err(AppError::Validation(_)) => {}
        _ => panic!("expected a validation error"),
    }
}

#[test]
fn create_rejects_missing_parent() {
    let mut s = new_store();
    match s.create("child", 2, None, &Vec::new(), Some("tk-none")) {
        Err(AppError::NotFound(_)) => {}
        _ => panic!("expected a not-found error"),
    }
}

#[test]
fn hierarchical_ids_count_up() {
    let mut s = new_store();
    let p = create(&mut s, "parent");
    let c1 = create_child(&mut s, "one", &p.id);
    let c2 = create_child(&mut s, "two", &p.id);
    let c3 = create_child(&mut s, "three", &p.id);
    assert_eq!(c1.id, format!("{}.1", p.id));
    assert_eq!(c2.id, format!("{}.2", p.id));
    assert_eq!(c3.id, format!("{}.3", p.id));
    assert_eq!(c1.parent_id.as_deref(), Some(p.id.as_str()));
    assert_eq!(c2.parent_id.as_deref(), Some(p.id.as_str()));
    assert_eq!(c3.parent_id.as_deref(), Some(p.id.as_str()));
}

#[test]
fn epic_auto_tag_added_once() {
    let mut s = new_store();
    let p = create(&mut s, "parent");
    assert!(s.get_task_tags(&p.id).expect("tags").is_empty());
    create_child(&mut s, "one", &p.id);
    let tags = s.get_task_tags(&p.id).expect("tags");
    assert_eq!(tags, vec!["epic".to_string()]);
    create_child(&mut s, "two", &p.id);
    let tags = s.get_task_tags(&p.id).expect("tags");
    assert_eq!(tags, vec!["epic".to_string()]);
}

#[test]
fn close_guard_blocks_open_children() {
    let mut s = new_store();
    let p = create(&mut s, "parent");
    let c = create_child(&mut s, "child", &p.id);
    match s.close(&p.id, None, None, false) {
        Err(AppError::Conflict(m)) => {
            assert!(m.contains(&c.id));
            assert!(m.contains("use --force"));
        }
        _ => panic!("expected a conflict"),
    }
    assert_eq!(s.get_task(&p.id).expect("get").status, Status::Open);
    s.close(&p.id, None, None, true).expect("forced close");
    let after = s.get_task(&p.id).expect("get");
    assert_eq!(after.status, Status::Done);
    assert_eq!(after.close_reason.as_deref(), Some("done"));
    assert_eq!(s.get_task(&c.id).expect("get child").status, Status::Open);
}

#[test]
fn close_after_children_done() {
    let mut s = new_store();
    let p = create(&mut s, "parent");
    let c = create_child(&mut s, "child", &p.id);
    s.close(&c.id, Some("done"), None, false).expect("close child");
    s.close(&p.id, Some("absorbed"), Some("wrapping up"), false).expect("close parent");
    let after = s.get_task(&p.id).expect("get");
    assert_eq!(after.status, Status::Done);
    assert_eq!(after.close_reason.as_deref(), Some("absorbed"));
    let comments = s.get_comments(&p.id);
    assert_eq!(comments.len(), 1);
    assert_eq!(comments[0].body, "wrapping up");
}

#[test]
fn close_rejects_invalid_reason() {
    let mut s = new_store();
    let t = create(&mut s, "task");
    match s.close(&t.id, Some("because"), None, false) {
        Err(AppError::Validation(m)) => assert!(m.contains("invalid close reason")),
        _ => panic!("expected a validation error"),
    }
    assert_eq!(s.get_task(&t.id).expect("get").status, Status::Open);
}

#[test]
fn close_missing_task() {
    let mut s = new_store();
    match s.close("tk-none", None, None, false) {
        Err(AppError::NotFound(_)) => {}
        _ => panic!("expected not-found"),
    }
}

#[test]
fn claim_sets_status_and_default_assignee() {
    let mut s = new_store();
    let t = create(&mut s, "task");
    s.claim(&t.id, None).expect("claim");
    let after = s.get_task(&t.id).expect("get");
    assert_eq!(after.status, Status::InProgress);
    assert_eq!(after.assignee.as_deref(), Some("agent"));
    s.claim(&t.id, Some("sam")).expect("claim again");
    let after = s.get_task(&t.id).expect("get");
    assert_eq!(after.assignee.as_deref(), Some("sam"));
}

#[test]
fn update_round_trip_all_fields() {
    let mut s = new_store();
    let t = create(&mut s, "task");
    let before = s.get_task(&t.id).expect("get");
    let f = UpdateFields {
        title: Some("renamed".to_string()),
        priority: Some(0),
        status: Some("in-progress".to_string()),
        description: Some("words".to_string()),
        assignee: Some("pat".to_string()),
        notes: Some("scratch".to_string()),
    };
    s.update_task(&t.id, &f).expect("update");
    let after = s.get_task(&t.id).expect("get");
    assert_eq!(after.title, "renamed");
    assert_eq!(after.priority, 0);
    assert_eq!(after.status, Status::InProgress);
    assert_eq!(after.description.as_deref(), Some("words"));
    assert_eq!(after.assignee.as_deref(), Some("pat"));
    assert!(after.close_reason.is_none());
    assert_eq!(after.notes.as_deref(), Some("scratch"));
    assert_eq!(after.created_at, before.created_at);
    assert!(after.updated_at > before.updated_at);
}

#[test]
fn update_empty_is_noop_even_for_missing_id() {
    let mut s = new_store();
    s.update_task("tk-none", &UpdateFields::none()).expect("no-op");
}

#[test]
fn update_missing_task_not_found() {
    let mut s = new_store();
    let mut f = UpdateFields::none();
    f.title = Some("x".to_string());
    match s.update_task("tk-none", &f) {
        Err(AppError::NotFound(_)) => {}
        _ => panic!("expected not-found"),
    }
}

#[test]
fn update_invalid_status_rejected_before_lookup() {
    let mut s = new_store();
    let mut f = UpdateFields::none();
    f.status = Some("bogus".to_string());
    match s.update_task("tk-none", &f) {
        Err(AppError::Validation(m)) => assert!(m.contains("unknown status")),
        _ => panic!("expected validation"),
    }
}

#[test]
fn update_tags_add_then_remove() {
    let mut s = new_store();
    let t = create(&mut s, "task");
    let adds = vec!["a".to_string(), "b".to_string(), "a".to_string()];
    s.update(&t.id, &UpdateFields::none(), Some(&adds), None).expect("add tags");
    assert_eq!(s.get_task_tags(&t.id).expect("tags"), vec!["a".to_string(), "b".to_string()]);
    let more = vec!["c".to_string()];
    let rems = vec!["a".to_string(), "c".to_string()];
    s.update(&t.id, &UpdateFields::none(), Some(&more), Some(&rems)).expect("tag churn");
    assert_eq!(s.get_task_tags(&t.id).expect("tags"), vec!["b".to_string()]);
}

#[test]
fn validate_close_reason_table() {
    for ok in ["done", "duplicate", "absorbed", "stale", "superseded"] {
        assert!(validate_close_reason(ok).is_ok());
    }
    let err = validate_close_reason("later").expect_err("invalid");
    assert_eq!(
        err,
        "invalid close reason: later. valid reasons: done, duplicate, absorbed, stale, superseded"
    );
}

#[test]
fn status_normalization_table() {
    assert_eq!(Status::from_str("open"), Ok(Status::Open));
    assert_eq!(Status::from_str("OPEN"), Ok(Status::Open));
    assert_eq!(Status::from_str("in_progress"), Ok(Status::InProgress));
    assert_eq!(Status::from_str("in-progress"), Ok(Status::InProgress));
    assert_eq!(Status::from_str("inprogress"), Ok(Status::InProgress));
    assert_eq!(Status::from_str("done"), Ok(Status::Done));
    assert_eq!(Status::from_str("closed"), Ok(Status::Done));
    assert_eq!(Status::from_str("Blocked"), Ok(Status::Blocked));
    assert_eq!(Status::from_str("banana"), Err("unknown status: banana".to_string()));
    assert_eq!(Status::Open.as_str(), "open");
    assert_eq!(Status::InProgress.as_str(), "in_progress");
}

#[test]
fn format_helpers() {
    assert_eq!(format_priority(0), "P0");
    assert_eq!(format_priority(3), "P3");
    assert_eq!(format_priority(17), "P17");
    assert_eq!(format_status(&Status::Blocked), "blocked");
}

#[test]
fn generate_id_uses_prefix() {
    let mut s = Store::new();
    s.set_config("prefix", "job");
    let id = s.generate_id().expect("id");
    assert!(id.starts_with("job-"));
    assert_eq!(id.len(), 8);
    assert!(id[4..].chars().all(|c| c.is_ascii_hexdigit()));
}
