use tman::algo::{day_available, place_unit};
use tman::data::{Data, Project, State};

fn project(name: &str, parent: usize, quota: (usize, usize), limit: usize) -> Project {
    let mut p = Project::new(name.to_string());
    p.parent = parent;
    p.quota = quota;
    p.limit = limit;
    p
}

#[test]
fn day_keeps_what_its_events_leave() {
    assert_eq!(day_available(8, 3), 5);
    assert_eq!(day_available(8, 8), 0);
    assert_eq!(day_available(8, 11), 0);
    assert_eq!(day_available(0, 0), 0);
    assert_eq!(day_available(usize::MAX, 1), usize::MAX - 1);
}

#[test]
fn unit_is_counted_where_the_project_stands_in_the_list() {
    let mut data = Data::new(0);
    data.upsert_project(project("a", 0, (0, 9), 100)).unwrap();
    data.upsert_project(project("b", 0, (0, 9), 100)).unwrap();
    let mut given = vec![];
    let mut ban = vec![];
    place_unit(&mut data, 2, &mut given, &mut ban);
    assert_eq!(given, vec![(2, 1)]);
    place_unit(&mut data, 1, &mut given, &mut ban);
    assert_eq!(given, vec![(2, 1), (1, 1)]);
    place_unit(&mut data, 2, &mut given, &mut ban);
    assert_eq!(given, vec![(2, 2), (1, 1)]);
    assert!(ban.is_empty());
    assert_eq!(data.get_project_by_id(2).unwrap().quota, (2, 9));
    assert_eq!(data.get_project_by_id(1).unwrap().quota, (1, 9));
    assert_eq!(data.get_project_by_id(1).unwrap().state, State::Todo);
}

#[test]
fn project_at_its_limit_is_banned() {
    let mut data = Data::new(0);
    data.upsert_project(project("a", 0, (0, 9), 2)).unwrap();
    let mut given = vec![];
    let mut ban = vec![];
    place_unit(&mut data, 1, &mut given, &mut ban);
    assert!(ban.is_empty());
    place_unit(&mut data, 1, &mut given, &mut ban);
    assert_eq!(ban, vec![1]);
    assert_eq!(given, vec![(1, 2)]);
    place_unit(&mut data, 1, &mut given, &mut ban);
    assert_eq!(ban, vec![1]);
    assert_eq!(given, vec![(1, 3)]);
    assert_eq!(data.get_project_by_id(1).unwrap().quota, (3, 9));
}

#[test]
fn last_unit_makes_the_project_done() {
    let mut data = Data::new(0);
    data.upsert_project(project("a", 0, (1, 2), 100)).unwrap();
    let mut given = vec![(1, 4)];
    let mut ban = vec![];
    place_unit(&mut data, 1, &mut given, &mut ban);
    assert_eq!(given, vec![(1, 5)]);
    let a = data.get_project_by_id(1).unwrap();
    assert_eq!(a.quota, (2, 2));
    assert_eq!(a.state, State::Done);
    assert!(ban.is_empty());
    place_unit(&mut data, 1, &mut given, &mut ban);
    let a = data.get_project_by_id(1).unwrap();
    assert_eq!(a.quota, (2, 2));
    assert_eq!(a.state, State::Done);
    assert_eq!(given, vec![(1, 6)]);
}

#[test]
fn project_done_takes_those_below_it_along() {
    let mut data = Data::new(0);
    data.upsert_project(project("a", 0, (0, 1), 100)).unwrap();
    data.upsert_project(project("b", 1, (0, 5), 100)).unwrap();
    data.upsert_project(project("c", 0, (0, 5), 100)).unwrap();
    let mut given = vec![];
    let mut ban = vec![];
    place_unit(&mut data, 1, &mut given, &mut ban);
    assert_eq!(data.get_project_by_id(1).unwrap().state, State::Done);
    assert_eq!(data.get_project_by_id(2).unwrap().state, State::Done);
    assert_eq!(data.get_project_by_id(2).unwrap().quota, (0, 5));
    assert_eq!(data.get_project_by_id(3).unwrap().state, State::Todo);
}

#[test]
fn project_given_up_takes_no_last_unit_and_is_banned() {
    let mut data = Data::new(0);
    data.upsert_project(project("a", 0, (1, 2), 100)).unwrap();
    let mut a = data.get_project_by_id(1).unwrap();
    a.state = State::Abort;
    data.upsert_project(a).unwrap();
    let mut given = vec![];
    let mut ban = vec![7];
    place_unit(&mut data, 1, &mut given, &mut ban);
    assert_eq!(given, vec![(1, 1)]);
    assert_eq!(ban, vec![7, 1]);
    let a = data.get_project_by_id(1).unwrap();
    assert_eq!(a.quota, (1, 2));
    assert_eq!(a.state, State::Abort);
}

#[test]
fn project_with_nothing_estimated_is_done_at_once() {
    let mut data = Data::new(0);
    data.upsert_project(project("a", 0, (0, 0), 1)).unwrap();
    let mut given = vec![];
    let mut ban = vec![];
    place_unit(&mut data, 1, &mut given, &mut ban);
    assert_eq!(given, vec![(1, 1)]);
    assert_eq!(ban, vec![1]);
    let a = data.get_project_by_id(1).unwrap();
    assert_eq!(a.quota, (0, 0));
    assert_eq!(a.state, State::Done);
}
