use tman::data::{Data, DataError, Event, Project, State};

fn named(name: &str) -> Project {
    Project::new(name.to_string())
}

#[test]
fn new_data_holds_the_root() {
    let data = Data::new(8);
    let root = data.get_project_by_id(0).unwrap();
    assert_eq!(root.name, "root");
    assert_eq!(root.parent, 0);
    assert!(matches!(data.get_project_by_id(1), Err(DataError::NoSuchProject)));
}

#[test]
fn insert_gives_the_next_id_and_lists_the_child() {
    let mut data = Data::new(0);
    data.upsert_project(named("a")).unwrap();
    data.upsert_project(named("b")).unwrap();
    assert_eq!(data.get_project_by_name("b").unwrap().id(), 2);
    assert_eq!(data.get_project_by_id(0).unwrap().children, vec![1, 2]);
}

#[test]
fn insert_refuses_a_name_that_is_taken() {
    let mut data = Data::new(0);
    data.upsert_project(named("a")).unwrap();
    assert!(matches!(data.upsert_project(named("a")), Err(DataError::IndexError(_))));
    assert!(matches!(data.upsert_project(named("root")), Err(DataError::IndexError(_))));
    assert!(matches!(data.get_project_by_id(2), Err(DataError::NoSuchProject)));
}

#[test]
fn insert_refuses_an_unknown_parent_and_a_state_but_todo() {
    let mut data = Data::new(0);
    let mut p = named("a");
    p.parent = 7;
    assert!(matches!(data.upsert_project(p), Err(DataError::InvalidId)));
    let mut q = named("b");
    q.state = State::Done;
    assert!(matches!(data.upsert_project(q), Err(DataError::InvalidNewProject(_))));
    let mut r = named("c");
    r.quota = (3, 2);
    assert!(matches!(data.upsert_project(r), Err(DataError::InvalidQuotaChange(_))));
}

#[test]
fn dependencies_that_are_no_siblings_are_left_out() {
    let mut data = Data::new(0);
    data.upsert_project(named("a")).unwrap();
    let mut b = named("b");
    b.parent = 1;
    data.upsert_project(b).unwrap();
    let mut c = named("c");
    c.dependencies = vec![1, 2, 3, 9];
    data.upsert_project(c).unwrap();
    assert_eq!(data.get_project_by_id(3).unwrap().dependencies, vec![1]);
    assert_eq!(data.get_project_by_id(1).unwrap().dependencies_reverse, vec![3]);
    assert!(data.get_project_by_id(2).unwrap().dependencies_reverse.is_empty());
}

#[test]
fn work_done_never_goes_down() {
    let mut data = Data::new(0);
    let mut a = named("a");
    a.quota = (2, 5);
    data.upsert_project(a).unwrap();
    let mut lower = data.get_project_by_id(1).unwrap();
    lower.quota = (1, 5);
    assert!(matches!(data.upsert_project(lower), Err(DataError::InvalidQuotaChange(_))));
    assert_eq!(data.get_project_by_id(1).unwrap().quota, (2, 5));
    let mut over = data.get_project_by_id(1).unwrap();
    over.quota = (6, 5);
    assert!(matches!(data.upsert_project(over), Err(DataError::InvalidQuotaChange(_))));
    let mut more = data.get_project_by_id(1).unwrap();
    more.quota = (4, 5);
    data.upsert_project(more).unwrap();
    assert_eq!(data.get_project_by_id(1).unwrap().quota, (4, 5));
}

#[test]
fn leaving_todo_takes_the_descendants_along() {
    let mut data = Data::new(0);
    data.upsert_project(named("a")).unwrap();
    let mut b = named("b");
    b.parent = 1;
    data.upsert_project(b).unwrap();
    let mut c = named("c");
    c.parent = 2;
    data.upsert_project(c).unwrap();
    data.upsert_project(named("other")).unwrap();
    let mut a = data.get_project_by_id(1).unwrap();
    a.state = State::Abort;
    data.upsert_project(a).unwrap();
    assert_eq!(data.get_project_by_id(2).unwrap().state, State::Abort);
    assert_eq!(data.get_project_by_id(3).unwrap().state, State::Abort);
    assert_eq!(data.get_project_by_id(4).unwrap().state, State::Todo);
    let mut back = data.get_project_by_id(2).unwrap();
    back.state = State::Todo;
    assert!(matches!(data.upsert_project(back), Err(DataError::InvalidStateChange)));
}

#[test]
fn moving_under_a_descendant_is_refused() {
    let mut data = Data::new(0);
    data.upsert_project(named("a")).unwrap();
    let mut b = named("b");
    b.parent = 1;
    data.upsert_project(b).unwrap();
    let mut a = data.get_project_by_id(1).unwrap();
    a.parent = 2;
    assert!(matches!(data.upsert_project(a), Err(DataError::InvalidId)));
    let mut own = data.get_project_by_id(1).unwrap();
    own.parent = 1;
    assert!(matches!(data.upsert_project(own), Err(DataError::InvalidId)));
    assert_eq!(data.get_project_by_id(1).unwrap().parent, 0);
    assert_eq!(data.get_project_by_id(0).unwrap().children, vec![1]);
}

#[test]
fn moving_changes_both_lists_of_children() {
    let mut data = Data::new(0);
    data.upsert_project(named("a")).unwrap();
    data.upsert_project(named("b")).unwrap();
    let mut b = data.get_project_by_id(2).unwrap();
    b.parent = 1;
    data.upsert_project(b).unwrap();
    assert_eq!(data.get_project_by_id(0).unwrap().children, vec![1]);
    assert_eq!(data.get_project_by_id(1).unwrap().children, vec![2]);
    assert_eq!(data.get_project_by_id(2).unwrap().parent, 1);
}

#[test]
fn project_with_dependencies_does_not_move() {
    let mut data = Data::new(0);
    data.upsert_project(named("a")).unwrap();
    let mut b = named("b");
    b.dependencies = vec![1];
    data.upsert_project(b).unwrap();
    data.upsert_project(named("c")).unwrap();
    let mut a = data.get_project_by_id(1).unwrap();
    a.parent = 3;
    assert!(matches!(data.upsert_project(a), Err(DataError::IndexError(_))));
    let mut b = data.get_project_by_id(2).unwrap();
    b.parent = 3;
    assert!(matches!(data.upsert_project(b), Err(DataError::IndexError(_))));
}

#[test]
fn root_keeps_its_name() {
    let mut data = Data::new(0);
    let mut root = data.get_project_by_id(0).unwrap();
    root.name = "top".to_string();
    assert!(matches!(data.upsert_project(root), Err(DataError::IndexError(_))));
    assert_eq!(data.get_project_by_id(0).unwrap().name, "root");
}

#[test]
fn projects_are_found_by_their_deadlines() {
    let mut data = Data::new(0);
    for (name, due) in [("a", 300), ("b", 100), ("c", 200), ("d", 100)] {
        let mut p = named(name);
        p.deadline = Some(due);
        data.upsert_project(p).unwrap();
    }
    assert_eq!(data.get_project_by_time_range((100, 300)), vec![2, 4, 3]);
    assert_eq!(data.get_project_by_time_range((101, 301)), vec![3, 1]);
    let mut b = data.get_project_by_id(2).unwrap();
    b.deadline = None;
    data.upsert_project(b).unwrap();
    assert_eq!(data.get_project_by_time_range((0, 1000)), vec![4, 3, 1]);
}

fn event(name: &str, time: i64, quota: usize) -> Event {
    Event { id: usize::MAX, name: name.to_string(), time, state: State::Todo, quota }
}

#[test]
fn events_are_found_by_their_times() {
    let mut data = Data::new(0);
    data.upsert_event(event("late", 50, 1)).unwrap();
    data.upsert_event(event("early", 10, 2)).unwrap();
    let found = data.get_event_by_range((0, 50));
    assert_eq!(found.len(), 1);
    assert_eq!(found[0].name, "early");
    assert_eq!(found[0].id, 1);
    let all = data.get_event_by_range((10, 51));
    let names: Vec<&str> = all.iter().map(|e| e.name.as_str()).collect();
    assert_eq!(names, vec!["early", "late"]);
}

#[test]
fn events_share_neither_name_nor_time() {
    let mut data = Data::new(0);
    data.upsert_event(event("a", 10, 1)).unwrap();
    assert!(matches!(data.upsert_event(event("a", 20, 1)), Err(DataError::IndexError(_))));
    assert!(matches!(data.upsert_event(event("b", 10, 1)), Err(DataError::IndexError(_))));
    data.upsert_event(event("b", 20, 1)).unwrap();
    let mut b = event("a", 20, 1);
    b.id = 1;
    assert!(matches!(data.upsert_event(b), Err(DataError::IndexError(_))));
    let mut c = event("b", 30, 7);
    c.id = 1;
    data.upsert_event(c).unwrap();
    let found = data.get_event_by_range((30, 31));
    assert_eq!(found[0].quota, 7);
    assert!(data.get_event_by_range((20, 21)).is_empty());
}

#[test]
fn changed_project_may_name_itself_among_its_dependencies() {
    let mut data = Data::new(0);
    data.upsert_project(named("a")).unwrap();
    data.upsert_project(named("b")).unwrap();
    let mut b = data.get_project_by_id(2).unwrap();
    b.dependencies = vec![2, 1, 7];
    data.upsert_project(b).unwrap();
    let b = data.get_project_by_id(2).unwrap();
    assert_eq!(b.dependencies, vec![2, 1]);
    assert_eq!(b.dependencies_reverse, vec![2]);
    assert_eq!(data.get_project_by_id(1).unwrap().dependencies_reverse, vec![2]);
    let mut b = data.get_project_by_id(2).unwrap();
    b.dependencies = vec![];
    data.upsert_project(b).unwrap();
    let b = data.get_project_by_id(2).unwrap();
    assert!(b.dependencies.is_empty());
    assert!(b.dependencies_reverse.is_empty());
    assert!(data.get_project_by_id(1).unwrap().dependencies_reverse.is_empty());
}
