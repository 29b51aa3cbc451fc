use tacks::query::TaskFilter;
use tacks::store::UpdateFields;
use tacks::webq::{
    build_board_poll_query, build_poll_query, filter_by_tags, parse_priority_values,
    parse_status_values, parse_tags,
};
use tacks::{Status, Store, Task};

fn new_store() -> Store {
    let mut s = Store::new();
    s.set_config("prefix", "tk");
    s
}

fn create_pri(s: &mut Store, title: &str, pri: u8) -> Task {
    s.create(title, pri, None, &Vec::new(), None).expect("create failed")
}

fn bare_filter() -> TaskFilter {
    TaskFilter::open_tasks()
}

#[test]
fn list_excludes_done_by_default() {
    let mut s = new_store();
    let a = create_pri(&mut s, "a", 2);
    let b = create_pri(&mut s, "b", 2);
    s.close(&a.id, None, None, false).expect("close");
    let ids: Vec<String> = s.list_tasks(&bare_filter()).into_iter().map(|t| t.id).collect();
    assert_eq!(ids, vec![b.id.clone()]);
    let mut all = bare_filter();
    all.include_done = true;
    assert_eq!(s.list_tasks(&all).len(), 2);
}

#[test]
fn list_filters_compose_exactly() {
    let mut s = new_store();
    let a = create_pri(&mut s, "keep me", 1);
    create_pri(&mut s, "wrong priority", 2);
    let c = create_pri(&mut s, "wrong status", 1);
    s.claim(&c.id, None).expect("claim");
    let mut f = bare_filter();
    f.status = Some("open".to_string());
    f.priority = Some(1);
    let ids: Vec<String> = s.list_tasks(&f).into_iter().map(|t| t.id).collect();
    assert_eq!(ids, vec![a.id.clone()]);
}

#[test]
fn list_ordering_is_priority_then_age() {
    let mut s = new_store();
    let c = create_pri(&mut s, "late low", 3);
    let a = create_pri(&mut s, "first high", 0);
    let b = create_pri(&mut s, "second high", 0);
    let ids: Vec<String> = s.list_tasks(&bare_filter()).into_iter().map(|t| t.id).collect();
    assert_eq!(ids, vec![a.id, b.id, c.id]);
}

#[test]
fn list_by_tag_and_parent() {
    let mut s = new_store();
    let tagged = s
        .create("tagged", 2, None, &vec!["web".to_string()], None)
        .expect("create");
    create_pri(&mut s, "untagged", 2);
    let mut f = bare_filter();
    f.tag = Some("web".to_string());
    let ids: Vec<String> = s.list_tasks(&f).into_iter().map(|t| t.id).collect();
    assert_eq!(ids, vec![tagged.id.clone()]);

    let child = s
        .create("child", 2, None, &Vec::new(), Some(tagged.id.as_str()))
        .expect("child");
    let mut f = bare_filter();
    f.parent = Some(tagged.id.clone());
    let ids: Vec<String> = s.list_tasks(&f).into_iter().map(|t| t.id).collect();
    assert_eq!(ids, vec![child.id]);
}

#[test]
fn list_search_is_case_insensitive_substring() {
    let mut s = new_store();
    let hit = create_pri(&mut s, "Fix the Parser", 2);
    create_pri(&mut s, "unrelated", 2);
    let mut f = bare_filter();
    f.search = Some("PARSE".to_string());
    let ids: Vec<String> = s.list_tasks(&f).into_iter().map(|t| t.id).collect();
    assert_eq!(ids, vec![hit.id]);
}

#[test]
fn children_sorted_by_id() {
    let mut s = new_store();
    let p = create_pri(&mut s, "parent", 2);
    let mut made = Vec::new();
    for i in 0..3 {
        made.push(
            s.create(&format!("c{i}"), (3 - i) as u8, None, &Vec::new(), Some(p.id.as_str()))
                .expect("child")
                .id,
        );
    }
    let ids: Vec<String> = s.get_children(&p.id).into_iter().map(|t| t.id).collect();
    assert_eq!(ids, made);
}

#[test]
fn comments_in_creation_order() {
    let mut s = new_store();
    let t = create_pri(&mut s, "task", 2);
    let c1 = s.add_comment(&t.id, "first").expect("comment");
    let c2 = s.add_comment(&t.id, "second").expect("comment");
    assert!(c2.id > c1.id);
    assert!(c2.created_at > c1.created_at);
    let all = s.get_comments(&t.id);
    assert_eq!(all.len(), 2);
    assert_eq!(all[0].body, "first");
    assert_eq!(all[1].body, "second");
    assert!(s.get_comments("tk-none").is_empty());
}

#[test]
fn update_tags_replaces_whole_set() {
    let mut s = new_store();
    let t = s
        .create("task", 2, None, &vec!["old".to_string()], None)
        .expect("create");
    let new_tags = vec!["x".to_string(), "y".to_string()];
    s.update_tags(&t.id, &new_tags).expect("update tags");
    assert_eq!(s.get_task_tags(&t.id).expect("tags"), new_tags);
    s.update_tags("tk-none", &new_tags).expect("silent no-op");
}

#[test]
fn update_then_get_round_trip_notes() {
    let mut s = new_store();
    let t = create_pri(&mut s, "task", 2);
    let mut f = UpdateFields::none();
    f.notes = Some("remember the milk".to_string());
    s.update_task(&t.id, &f).expect("update");
    let after = s.get_task(&t.id).expect("get");
    assert_eq!(after.notes.as_deref(), Some("remember the milk"));
    assert_eq!(after.status, Status::Open);
}

#[test]
fn config_round_trip() {
    let mut s = Store::new();
    assert!(s.get_config("prefix").is_none());
    s.set_config("prefix", "tk");
    s.set_config("version", "1.0");
    assert_eq!(s.get_config("prefix").as_deref(), Some("tk"));
    s.set_config("prefix", "job");
    assert_eq!(s.get_config("prefix").as_deref(), Some("job"));
    assert_eq!(s.get_config("version").as_deref(), Some("1.0"));
}

#[test]
fn parse_tag_lists() {
    let parsed = parse_tags(Some(" a , b,,c "));
    assert_eq!(parsed, vec!["a".to_string(), "b".to_string(), "c".to_string()]);
    assert!(parse_tags(None).is_empty());
}

#[test]
fn parse_priority_lists() {
    assert_eq!(parse_priority_values(&Some("1, 2,x,300".to_string())), vec![1, 2]);
    assert_eq!(parse_priority_values(&Some("".to_string())), Vec::<u8>::new());
    assert_eq!(parse_priority_values(&None), Vec::<u8>::new());
}

#[test]
fn parse_status_lists() {
    assert_eq!(
        parse_status_values(&Some("open, in_progress".to_string())),
        vec!["open".to_string(), "in_progress".to_string()]
    );
    assert!(parse_status_values(&None).is_empty());
}

#[test]
fn filter_by_tags_is_or_semantics() {
    let mut s = new_store();
    let a = s.create("a", 2, None, &vec!["x".to_string()], None).expect("create");
    let b = s.create("b", 2, None, &vec!["y".to_string()], None).expect("create");
    create_pri(&mut s, "c", 2);
    let all = s.list_tasks(&bare_filter());
    let picked = filter_by_tags(all, &vec!["x".to_string(), "y".to_string()]);
    let ids: Vec<String> = picked.into_iter().map(|t| t.id).collect();
    assert_eq!(ids, vec![a.id, b.id]);
}

#[test]
fn poll_query_strings() {
    assert_eq!(build_poll_query(&None, &None, &None, &None), "");
    assert_eq!(
        build_poll_query(
            &Some("open".to_string()),
            &None,
            &Some("web".to_string()),
            &None
        ),
        "?status=open&tag=web"
    );
    assert_eq!(
        build_board_poll_query(&Some("tk-1".to_string()), &Some("2".to_string())),
        "?epic=tk-1&priority=2"
    );
    assert_eq!(build_board_poll_query(&None, &None), "");
}

#[test]
fn numeric_suffix_sort_orders_ten_after_nine() {
    let mut s = new_store();
    let p = create_pri(&mut s, "parent", 2);
    let mut expect = Vec::new();
    for i in 0..11 {
        expect.push(
            s.create(&format!("c{i}"), 2, None, &Vec::new(), Some(p.id.as_str()))
                .expect("child")
                .id,
        );
    }
    // Lexicographic child order puts .10 and .11 before .2; the numeric
    // sort restores creation order.
    let lex: Vec<String> = s.get_children(&p.id).into_iter().map(|t| t.id).collect();
    assert_ne!(lex, expect);
    let numeric: Vec<String> = tacks::query::sort_tasks_by_index(&s.get_children(&p.id))
        .into_iter()
        .map(|t| t.id)
        .collect();
    assert_eq!(numeric, expect);
}

#[test]
fn multi_value_status_and_priority_filters() {
    let mut s = new_store();
    let a = create_pri(&mut s, "a", 1);
    let b = create_pri(&mut s, "b", 2);
    let c = create_pri(&mut s, "c", 3);
    s.claim(&b.id, None).expect("claim");
    let mut all = bare_filter();
    all.include_done = true;
    let everything = s.list_tasks(&all);
    let statuses = vec!["open".to_string(), "in_progress".to_string()];
    let by_status = tacks::webq::filter_by_statuses(everything, &statuses);
    assert_eq!(by_status.len(), 3);
    let by_pri = tacks::webq::filter_by_priorities(by_status, &vec![1u8, 3u8]);
    let ids: Vec<String> = by_pri.into_iter().map(|t| t.id).collect();
    assert_eq!(ids, vec![a.id, c.id]);
}

#[test]
fn board_split_moves_dep_blocked_open_tasks() {
    let mut s = new_store();
    let a = create_pri(&mut s, "a", 2);
    let b = create_pri(&mut s, "b", 2);
    let c = create_pri(&mut s, "c", 2);
    s.add_dependency(&b.id, &a.id).expect("dep add");
    let mut f = bare_filter();
    f.status = Some("open".to_string());
    let open_raw = s.list_tasks(&f);
    let (blocked, free) = s.split_by_blocked(open_raw);
    let blocked_ids: Vec<String> = blocked.into_iter().map(|t| t.id).collect();
    let free_ids: Vec<String> = free.into_iter().map(|t| t.id).collect();
    assert_eq!(blocked_ids, vec![b.id]);
    assert_eq!(free_ids, vec![a.id, c.id]);
}

#[test]
fn raise_clock_keeps_loaded_stamps_in_the_past() {
    let mut s = new_store();
    s.raise_clock(1_000_000);
    let t = s.create("after load", 2, None, &Vec::new(), None).expect("create");
    assert!(t.created_at > 1_000_000);
}
