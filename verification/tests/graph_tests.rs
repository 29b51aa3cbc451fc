use tacks::store::UpdateFields;
use tacks::{AppError, Status, Store, Task};

fn new_store() -> Store {
    let mut s = Store::new();
    s.set_config("prefix", "tk");
    s
}

fn create(s: &mut Store, title: &str) -> Task {
    s.create(title, 2, None, &Vec::new(), None).expect("create failed")
}

fn set_status(s: &mut Store, id: &str, status: &str) {
    let mut f = UpdateFields::none();
    f.status = Some(status.to_string());
    s.update_task(id, &f).expect("status update");
}

#[test]
fn add_dependency_and_blockers() {
    let mut s = new_store();
    let a = create(&mut s, "a");
    let b = create(&mut s, "b");
    s.add_dependency(&b.id, &a.id).expect("dep add");
    let blockers = s.get_blockers(&b.id);
    assert_eq!(blockers.len(), 1);
    assert_eq!(blockers[0].child_id, b.id);
    assert_eq!(blockers[0].parent_id, a.id);
    let dependents = s.get_dependents(&a.id);
    assert_eq!(dependents.len(), 1);
    assert_eq!(dependents[0].id, b.id);
}

#[test]
fn duplicate_dependency_conflicts() {
    let mut s = new_store();
    let a = create(&mut s, "a");
    let b = create(&mut s, "b");
    s.add_dependency(&b.id, &a.id).expect("dep add");
    match s.add_dependency(&b.id, &a.id) {
        Err(AppError::Conflict(m)) => assert!(m.contains("already exists")),
        _ => panic!("expected a conflict"),
    }
}

#[test]
fn dependency_missing_task() {
    let mut s = new_store();
    let a = create(&mut s, "a");
    match s.add_dependency(&a.id, "tk-none") {
        Err(AppError::NotFound(_)) => {}
        _ => panic!("expected not-found"),
    }
    match s.add_dependency("tk-none", &a.id) {
        Err(AppError::NotFound(_)) => {}
        _ => panic!("expected not-found"),
    }
}

#[test]
fn cycle_rejected() {
    let mut s = new_store();
    let a = create(&mut s, "a");
    let b = create(&mut s, "b");
    let c = create(&mut s, "c");
    s.add_dependency(&b.id, &a.id).expect("b blocked by a");
    s.add_dependency(&c.id, &b.id).expect("c blocked by b");
    match s.add_dependency(&a.id, &c.id) {
        Err(AppError::Conflict(m)) => assert!(m.contains("circular")),
        _ => panic!("expected a cycle conflict"),
    }
    match s.add_dependency(&a.id, &a.id) {
        Err(AppError::Conflict(m)) => assert!(m.contains("circular")),
        _ => panic!("expected a self-loop conflict"),
    }
    assert_eq!(s.get_blockers(&a.id).len(), 0);
}

#[test]
fn remove_dependency_idempotent() {
    let mut s = new_store();
    let a = create(&mut s, "a");
    let b = create(&mut s, "b");
    s.add_dependency(&b.id, &a.id).expect("dep add");
    s.remove_dependency(&b.id, &a.id).expect("first removal");
    s.remove_dependency(&b.id, &a.id).expect("second removal never errors");
    assert_eq!(s.get_blockers(&b.id).len(), 0);
}

#[test]
fn ready_excludes_blocked_until_blocker_done() {
    let mut s = new_store();
    let a = create(&mut s, "a");
    let b = create(&mut s, "b");
    s.add_dependency(&b.id, &a.id).expect("b blocked by a");
    let ready: Vec<String> = s.get_ready_tasks(None).into_iter().map(|t| t.id).collect();
    assert!(ready.contains(&a.id));
    assert!(!ready.contains(&b.id));
    s.close(&a.id, None, None, false).expect("close a");
    let ready: Vec<String> = s.get_ready_tasks(None).into_iter().map(|t| t.id).collect();
    assert!(ready.contains(&b.id));
    assert!(!ready.contains(&a.id));
}

#[test]
fn ready_only_lists_open_tasks() {
    let mut s = new_store();
    let a = create(&mut s, "a");
    s.claim(&a.id, None).expect("claim");
    assert!(s.get_ready_tasks(None).is_empty());
    set_status(&mut s, &a.id, "open");
    assert_eq!(s.get_ready_tasks(None).len(), 1);
}

#[test]
fn ready_limit_caps_count() {
    let mut s = new_store();
    for i in 0..4 {
        create(&mut s, &format!("task {i}"));
    }
    assert_eq!(s.get_ready_tasks(None).len(), 4);
    assert_eq!(s.get_ready_tasks(Some(2)).len(), 2);
    assert_eq!(s.get_ready_tasks(Some(9)).len(), 4);
}

#[test]
fn blocked_is_graph_derived_not_status() {
    let mut s = new_store();
    let a = create(&mut s, "a");
    let b = create(&mut s, "b");
    s.add_dependency(&b.id, &a.id).expect("dep add");
    let blocked: Vec<String> = s.get_blocked_tasks().into_iter().map(|t| t.id).collect();
    assert_eq!(blocked, vec![b.id.clone()]);
    assert_eq!(s.get_task(&b.id).expect("get").status, Status::Open);
    s.close(&a.id, None, None, false).expect("close a");
    assert!(s.get_blocked_tasks().is_empty());
}

#[test]
fn ready_ordering_priority_then_age() {
    let mut s = new_store();
    let low = s.create("low", 3, None, &Vec::new(), None).expect("create");
    let old_high = s.create("older high", 1, None, &Vec::new(), None).expect("create");
    let new_high = s.create("newer high", 1, None, &Vec::new(), None).expect("create");
    let ids: Vec<String> = s.get_ready_tasks(None).into_iter().map(|t| t.id).collect();
    assert_eq!(ids, vec![old_high.id, new_high.id, low.id]);
}
