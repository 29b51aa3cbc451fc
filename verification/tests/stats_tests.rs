use tacks::stats::command_reference;
use tacks::store::UpdateFields;
use tacks::{Status, Store, Task};

fn new_store() -> Store {
    let mut s = Store::new();
    s.set_config("prefix", "tk");
    s
}

fn create(s: &mut Store, title: &str) -> Task {
    s.create(title, 2, None, &Vec::new(), None).expect("create failed")
}

#[test]
fn counts_by_status_alphabetical_nonzero() {
    let mut s = new_store();
    create(&mut s, "a");
    create(&mut s, "b");
    let c = create(&mut s, "c");
    s.claim(&c.id, None).expect("claim");
    let d = create(&mut s, "d");
    s.close(&d.id, None, None, false).expect("close");
    let counts = s.task_count_by_status();
    assert_eq!(
        counts,
        vec![
            ("done".to_string(), 1),
            ("in_progress".to_string(), 1),
            ("open".to_string(), 2),
        ]
    );
}

#[test]
fn counts_by_priority_ascending() {
    let mut s = new_store();
    s.create("a", 3, None, &Vec::new(), None).expect("create");
    s.create("b", 0, None, &Vec::new(), None).expect("create");
    s.create("c", 3, None, &Vec::new(), None).expect("create");
    let counts = s.task_count_by_priority();
    assert_eq!(counts, vec![(0u8, 1i64), (3u8, 2i64)]);
}

#[test]
fn counts_by_tag_by_count_then_name() {
    let mut s = new_store();
    s.create("a", 2, None, &vec!["web".to_string(), "bug".to_string()], None)
        .expect("create");
    s.create("b", 2, None, &vec!["web".to_string()], None).expect("create");
    s.create("c", 2, None, &vec!["api".to_string()], None).expect("create");
    let counts = s.task_count_by_tag();
    assert_eq!(
        counts,
        vec![
            ("web".to_string(), 2),
            ("api".to_string(), 1),
            ("bug".to_string(), 1),
        ]
    );
}

#[test]
fn epic_progress_percentages() {
    let mut s = new_store();
    let p = create(&mut s, "parent");
    let c1 = s
        .create("one", 2, None, &Vec::new(), Some(p.id.as_str()))
        .expect("child");
    s.create("two", 2, None, &Vec::new(), Some(p.id.as_str())).expect("child");
    s.create("three", 2, None, &Vec::new(), Some(p.id.as_str())).expect("child");
    s.close(&c1.id, None, None, false).expect("close one");
    let rows = s.epic_progress(true);
    assert_eq!(rows.len(), 1);
    assert_eq!(rows[0].task.id, p.id);
    assert_eq!(rows[0].children_total, 3);
    assert_eq!(rows[0].children_done, 1);
    assert_eq!(rows[0].progress_pct, 33);
}

#[test]
fn epic_progress_zero_children() {
    let mut s = new_store();
    let t = create(&mut s, "solo");
    let tags = vec!["epic".to_string()];
    s.update(&t.id, &UpdateFields::none(), Some(&tags), None).expect("tag");
    let rows = s.epic_progress(true);
    assert_eq!(rows.len(), 1);
    assert_eq!(rows[0].children_total, 0);
    assert_eq!(rows[0].children_done, 0);
    assert_eq!(rows[0].progress_pct, 0);
}

#[test]
fn prime_data_empty_store() {
    let s = new_store();
    let d = s.prime_data();
    assert_eq!(
        d.by_status,
        vec![
            ("open".to_string(), 0),
            ("in_progress".to_string(), 0),
            ("blocked".to_string(), 0),
            ("done".to_string(), 0),
        ]
    );
    assert!(d.in_progress.is_empty());
    assert!(d.ready.is_empty());
    assert!(!d.command_reference.is_empty());
    assert!(d.command_reference[0].contains("tk create"));
}

#[test]
fn prime_data_in_progress_and_ready() {
    let mut s = new_store();
    create(&mut s, "Ready item");
    let w = create(&mut s, "Working item");
    s.claim(&w.id, None).expect("claim");
    let d = s.prime_data();
    assert!(d.in_progress.iter().any(|t| t.title == "Working item"));
    assert!(d.ready.iter().any(|t| t.title == "Ready item"));
    assert!(d.by_status.contains(&("in_progress".to_string(), 1)));
    assert!(d.ready.len() <= 5);
}

#[test]
fn prime_ready_capped_at_five() {
    let mut s = new_store();
    for i in 0..7 {
        create(&mut s, &format!("task {i}"));
    }
    let d = s.prime_data();
    assert_eq!(d.ready.len(), 5);
}

#[test]
fn command_reference_lines() {
    let lines = command_reference();
    assert_eq!(lines.len(), 9);
    assert!(lines.iter().any(|l| l.contains("tk dep add|remove")));
}
