use tacks::{AppError, Status, Store, Task};

fn record(id: &str, stamp: i64) -> Task {
    Task {
        id: id.to_string(),
        title: format!("task {id}"),
        description: None,
        status: Status::Open,
        priority: 2,
        assignee: None,
        parent_id: None,
        tags: Vec::new(),
        created_at: stamp,
        updated_at: stamp,
        close_reason: None,
        notes: None,
    }
}

#[test]
fn insert_and_get_round_trip() {
    let mut s = Store::new();
    s.raise_clock(50);
    s.insert_task(record("tk-0001", 10)).expect("insert");
    let got = s.get_task("tk-0001").expect("present");
    assert_eq!(got.title, "task tk-0001");
    assert_eq!(got.created_at, 10);
    assert!(s.get_task("tk-0002").is_none());
}

#[test]
fn insert_duplicate_id_conflicts() {
    let mut s = Store::new();
    s.raise_clock(50);
    s.insert_task(record("tk-0001", 10)).expect("insert");
    match s.insert_task(record("tk-0001", 20)) {
        Err(AppError::Conflict(m)) => assert!(m.contains("already exists")),
        _ => panic!("expected a conflict"),
    }
    // the failed insert wrote nothing
    assert_eq!(s.get_task("tk-0001").expect("present").created_at, 10);
}

#[test]
fn loaded_stamps_stay_in_the_past() {
    let mut s = Store::new();
    s.set_config("prefix", "tk");
    s.raise_clock(1_000);
    s.insert_task(record("tk-0001", 900)).expect("insert");
    let fresh = s.create("new one", 2, None, &Vec::new(), None).expect("create");
    assert!(fresh.created_at > 1_000);
    let older = s.get_task("tk-0001").expect("present");
    assert!(older.updated_at < fresh.created_at);
}

#[test]
fn child_ids_skip_unrelated_tasks() {
    let mut s = Store::new();
    s.set_config("prefix", "tk");
    let p = s.create("parent", 2, None, &Vec::new(), None).expect("create");
    s.create("bystander", 2, None, &Vec::new(), None).expect("create");
    let c = s
        .create("child", 2, None, &Vec::new(), Some(p.id.as_str()))
        .expect("child");
    assert_eq!(c.id, format!("{}.1", p.id));
}

#[test]
fn error_messages_carry_the_id() {
    let mut s = Store::new();
    match s.get_task_tags("tk-miss") {
        Err(e) => assert_eq!(e.message(), "task not found: tk-miss"),
        Ok(_) => panic!("expected not-found"),
    }
}

#[test]
fn validate_accepts_live_stores_and_rejects_broken_ones() {
    let mut s = Store::new();
    s.set_config("prefix", "tk");
    let a = s.create("a", 2, None, &Vec::new(), None).expect("create");
    let b = s.create("b", 2, None, &Vec::new(), None).expect("create");
    s.add_dependency(&b.id, &a.id).expect("dep");
    s.add_comment(&a.id, "note").expect("comment");
    assert!(s.validate());

    // duplicate id
    let mut broken = Store::new();
    broken.raise_clock(10);
    broken.tasks.push(record("tk-0001", 5));
    broken.tasks.push(record("tk-0001", 6));
    assert!(!broken.validate());

    // dangling edge
    let mut broken = Store::new();
    broken.raise_clock(10);
    broken.tasks.push(record("tk-0001", 5));
    broken.deps.push(tacks::Dependency {
        child_id: "tk-0001".to_string(),
        parent_id: "tk-none".to_string(),
    });
    assert!(!broken.validate());

    // two-edge cycle
    let mut broken = Store::new();
    broken.raise_clock(10);
    broken.tasks.push(record("tk-0001", 5));
    broken.tasks.push(record("tk-0002", 6));
    broken.deps.push(tacks::Dependency {
        child_id: "tk-0001".to_string(),
        parent_id: "tk-0002".to_string(),
    });
    broken.deps.push(tacks::Dependency {
        child_id: "tk-0002".to_string(),
        parent_id: "tk-0001".to_string(),
    });
    assert!(!broken.validate());

    // stamp beyond the clock
    let mut broken = Store::new();
    broken.tasks.push(record("tk-0001", 5));
    assert!(!broken.validate());
}
