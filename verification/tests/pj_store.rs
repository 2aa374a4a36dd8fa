use tman::data::State;
use tman::store::pj::{Pj, PjErr, PjLog, PjStore, WeightType};

fn named(name: &str, pp: usize) -> Pj {
    let mut pj = Pj::new(name.to_string());
    pj.pp = pp;
    pj
}

fn store_with(names: &[(&str, usize)]) -> PjStore {
    let mut store = PjStore::new();
    for (name, pp) in names {
        store.create(named(name, *pp)).unwrap();
    }
    store
}

fn sorted(mut v: Vec<usize>) -> Vec<usize> {
    v.sort();
    v
}

#[test]
fn new_store_holds_the_root() {
    let store = PjStore::new();
    let root = store.get_by_id(0).unwrap();
    assert_eq!(root.name(), "root");
    assert_eq!(root.id(), 0);
    assert_eq!(root.pp, 0);
    assert!(store.get_by_id(1).is_none());
    assert!(store.check_exists(0).is_ok());
    assert_eq!(store.check_exists(1), Err(PjErr::InvalidProjectId));
}

#[test]
fn create_gives_the_next_place_and_tells_the_parent() {
    let mut store = PjStore::new();
    assert!(matches!(store.create(named("a", 0)), Ok(PjLog::Create { id: 1 })));
    assert!(matches!(store.create(named("b", 1)), Ok(PjLog::Create { id: 2 })));
    assert_eq!(store.get_by_id(0).unwrap().chpj, vec![1]);
    assert_eq!(store.get_by_id(1).unwrap().chpj, vec![2]);
    assert_eq!(store.get_by_id(2).unwrap().pp, 1);
    assert_eq!(store.get_by_name(&"b".to_string()).unwrap().id(), 2);
}

#[test]
fn create_refuses_what_is_not_new() {
    let mut store = store_with(&[("a", 0)]);
    let mut with_deps = named("x", 0);
    with_deps.deps = vec![1];
    assert!(matches!(store.create(with_deps), Err(PjErr::NewProjectButPeerDependency)));
    let mut with_children = named("x", 0);
    with_children.chpj = vec![1];
    assert!(matches!(store.create(with_children), Err(PjErr::NewProjectButChildren)));
    assert!(matches!(store.create(named("x", 9)), Err(PjErr::InvalidProjectId)));
    assert!(matches!(store.create(named("a", 0)), Err(PjErr::NameNotDistinct)));
    let mut done = named("x", 0);
    done.state = State::Done;
    assert!(matches!(store.create(done), Err(PjErr::InvalidStateChange)));
    let mut over = named("x", 0);
    over.quota_done = 2;
    over.quota_esti = 1;
    assert!(matches!(store.create(over), Err(PjErr::InvalidQuotaChange)));
    assert!(store.get_by_id(2).is_none());
}

#[test]
fn names_stay_distinct_under_creates_and_renames() {
    let mut store = store_with(&[("a", 0), ("b", 0)]);
    assert!(matches!(store.update_name(2, "a".to_string()), Err(PjErr::NameNotDistinct)));
    assert!(matches!(store.update_name(0, "top".to_string()), Err(PjErr::NameOfRootCannotBeModified)));
    assert!(matches!(store.update_name(7, "z".to_string()), Err(PjErr::InvalidProjectId)));
    assert!(store.update_name(2, "c".to_string()).is_ok());
    assert!(store.update_name(1, "b".to_string()).is_ok());
    let mut names = store.get_all_names().unwrap();
    names.sort();
    assert_eq!(names, vec!["b", "c", "root"]);
    assert_eq!(store.get_by_name(&"b".to_string()).unwrap().id(), 1);
    assert!(store.get_by_name(&"a".to_string()).is_none());
}

#[test]
fn deleting_a_project_with_a_child_fails_and_changes_nothing() {
    let mut store = store_with(&[("a", 0), ("b", 1)]);
    assert!(matches!(store.delete(1), Err(PjErr::BannedByChildren)));
    assert_eq!(store.get_by_id(1).unwrap().chpj, vec![2]);
    assert_eq!(store.get_by_id(0).unwrap().chpj, vec![1]);
    assert_eq!(store.get_by_id(2).unwrap().pp, 1);
    assert_eq!(store.get_by_name(&"a".to_string()).unwrap().id(), 1);
}

#[test]
fn delete_empties_the_place_and_frees_the_name() {
    let mut store = store_with(&[("a", 0), ("b", 0)]);
    assert!(store.update_deadline(1, Some(50)).is_ok());
    let log = store.delete(1).unwrap();
    assert!(matches!(&log, PjLog::Delete { pj } if pj.name() == "a"));
    assert!(store.get_by_id(1).is_none());
    assert_eq!(store.get_by_id(0).unwrap().chpj, vec![2]);
    assert!(store.get_by_name(&"a".to_string()).is_none());
    assert!(matches!(store.delete(1), Err(PjErr::InvalidProjectId)));
    assert!(matches!(store.delete(0), Err(PjErr::BannedByChildren)));
    store.undo(log);
    assert_eq!(store.get_by_id(1).unwrap().name(), "a");
    assert_eq!(store.get_by_id(1).unwrap().deadline, Some(50));
    assert_eq!(sorted(store.get_by_id(0).unwrap().chpj), vec![1, 2]);
    assert!(matches!(store.create(named("a", 0)), Err(PjErr::NameNotDistinct)));
    assert!(matches!(store.create(named("c", 0)), Ok(PjLog::Create { id: 3 })));
}

#[test]
fn root_is_never_deleted() {
    let mut store = PjStore::new();
    assert!(matches!(store.delete(0), Err(PjErr::InvalidProjectId)));
    assert!(store.get_by_id(0).is_some());
}

#[test]
fn dependencies_join_siblings_at_both_ends() {
    let mut store = store_with(&[("a", 0), ("b", 0), ("c", 1)]);
    assert!(matches!(store.add_deps(1, 2), Ok(PjLog::DepsAdd { id: 1, add: 2 })));
    assert_eq!(store.get_by_id(1).unwrap().deps, vec![2]);
    assert_eq!(store.get_by_id(2).unwrap().deps_rvs, vec![1]);
    assert!(matches!(store.add_deps(1, 2), Ok(PjLog::Nothing)));
    assert!(matches!(store.add_deps(1, 3), Err(PjErr::DependencyNotInPeer)));
    assert!(matches!(store.add_deps(0, 1), Err(PjErr::DependencyNotInPeer)));
    assert!(matches!(store.add_deps(9, 1), Err(PjErr::InvalidProjectId)));
    assert!(matches!(store.delete(2), Err(PjErr::BannedByPeerDependency)));
    assert!(matches!(store.update_pp(1, 2), Err(PjErr::BannedByPeerDependency)));
    assert!(matches!(store.rmv_deps(1, 2), Ok(PjLog::DepsRmv { id: 1, rmv: 2 })));
    assert!(matches!(store.rmv_deps(1, 2), Ok(PjLog::Nothing)));
    assert!(store.get_by_id(1).unwrap().deps.is_empty());
    assert!(store.get_by_id(2).unwrap().deps_rvs.is_empty());
    assert!(matches!(store.rmv_deps(1, 9), Err(PjErr::InvalidProjectId)));
}

#[test]
fn moving_keeps_the_tree_a_tree() {
    let mut store = store_with(&[("a", 0), ("b", 1), ("c", 2), ("d", 0)]);
    assert!(matches!(store.update_pp(1, 3), Err(PjErr::InvalidProjectId)));
    assert!(matches!(store.update_pp(1, 1), Err(PjErr::InvalidProjectId)));
    assert!(matches!(store.update_pp(0, 1), Err(PjErr::InvalidProjectId)));
    assert!(matches!(store.update_pp(1, 9), Err(PjErr::InvalidProjectId)));
    assert!(matches!(store.update_pp(2, 4), Ok(PjLog::Parent { id: 2, old: 1 })));
    assert!(store.get_by_id(1).unwrap().chpj.is_empty());
    assert_eq!(store.get_by_id(4).unwrap().chpj, vec![2]);
    assert_eq!(store.get_by_id(2).unwrap().pp, 4);
    assert_eq!(store.get_by_id(3).unwrap().pp, 2);
    assert!(matches!(store.update_pp(4, 3), Err(PjErr::InvalidProjectId)));
    assert!(matches!(store.update_pp(2, 4), Ok(PjLog::Parent { id: 2, old: 4 })));
    for id in 1..5 {
        let pj = store.get_by_id(id).unwrap();
        assert!(store.get_by_id(pj.pp).unwrap().chpj.contains(&id));
        assert!(!store.is_above(id, pj.pp));
    }
}

#[test]
fn quota_done_is_monotone_in_the_store() {
    let mut store = store_with(&[("a", 0)]);
    assert!(matches!(store.update_quota_esti(1, 5), Ok(PjLog::QuotaEsti { id: 1, old: 0 })));
    assert!(matches!(
        store.update_quota_done(1, 3),
        Ok(PjLog::QuotaDone { id: 1, old_done: 0, old_esti: 5 })
    ));
    assert!(matches!(store.update_quota_done(1, 2), Err(PjErr::InvalidQuotaChange)));
    assert_eq!(store.get_by_id(1).unwrap().quota_done, 3);
    assert!(matches!(store.update_quota_done(1, 8), Ok(_)));
    let pj = store.get_by_id(1).unwrap();
    assert_eq!((pj.quota_done, pj.quota_esti), (8, 8));
    assert!(matches!(store.update_quota_esti(1, 7), Err(PjErr::InvalidQuotaChange)));
    assert!(matches!(store.update_quota_esti(9, 7), Err(PjErr::InvalidProjectId)));
    assert!(matches!(store.update_quota_done(9, 7), Err(PjErr::InvalidProjectId)));
}

#[test]
fn weight_and_events_are_noted() {
    let mut store = store_with(&[("a", 0)]);
    assert!(matches!(store.update_weight(1, 4), Ok(PjLog::Weight { id: 1, old: 0 })));
    assert!(matches!(
        store.update_weight_type(1, WeightType::Flexible),
        Ok(PjLog::WeightType { id: 1, old: WeightType::Permanent })
    ));
    assert!(matches!(store.update_weight(5, 4), Err(PjErr::InvalidProjectId)));
    assert!(matches!(store.add_event(1, 7), Ok(PjLog::AddEvent { id: 1, ev: 7 })));
    assert!(matches!(store.add_event(1, 7), Ok(PjLog::Nothing)));
    assert!(matches!(store.delete(1), Err(PjErr::BannedByChildren)));
    assert!(matches!(store.rmv_event(1, 7), Ok(PjLog::RmvEvent { id: 1, ev: 7 })));
    assert!(matches!(store.rmv_event(1, 7), Ok(PjLog::Nothing)));
    assert!(matches!(store.add_event(5, 7), Err(PjErr::InvalidProjectId)));
    let pj = store.get_by_id(1).unwrap();
    assert_eq!(pj.weight, 4);
    assert_eq!(pj.weight_type, WeightType::Flexible);
    assert!(pj.chev.is_empty());
}

#[test]
fn state_change_reaches_the_projects_below() {
    let mut store = store_with(&[("a", 0), ("b", 1), ("c", 2), ("d", 0)]);
    assert!(store.update_state(3, State::Done).is_ok());
    let log = store.update_state(1, State::Abort).unwrap();
    assert!(matches!(&log, PjLog::State { ids } if ids == &vec![1, 2]));
    assert_eq!(store.get_by_id(1).unwrap().state, State::Abort);
    assert_eq!(store.get_by_id(2).unwrap().state, State::Abort);
    assert_eq!(store.get_by_id(3).unwrap().state, State::Done);
    assert_eq!(store.get_by_id(4).unwrap().state, State::Todo);
    assert!(matches!(store.update_state(1, State::Todo), Err(PjErr::InvalidStateChange)));
    assert!(matches!(store.update_state(1, State::Abort), Ok(PjLog::State { ids }) if ids.is_empty()));
    assert!(matches!(store.update_state(8, State::Done), Err(PjErr::InvalidProjectId)));
    store.undo(log);
    assert_eq!(store.get_by_id(1).unwrap().state, State::Todo);
    assert_eq!(store.get_by_id(2).unwrap().state, State::Todo);
    assert_eq!(store.get_by_id(3).unwrap().state, State::Done);
}

fn snapshot(store: &PjStore) -> Vec<Option<(usize, String, Vec<usize>, Vec<usize>, Vec<usize>, Option<i64>, usize, usize, usize)>> {
    (0..8)
        .map(|id| {
            store.get_by_id(id).map(|p| {
                (
                    p.pp,
                    p.name().to_string(),
                    sorted(p.chpj.clone()),
                    sorted(p.deps.clone()),
                    sorted(p.deps_rvs.clone()),
                    p.deadline,
                    p.quota_done,
                    p.quota_esti,
                    p.weight,
                )
            })
        })
        .collect()
}

#[test]
fn undo_takes_each_change_back() {
    let mut store = store_with(&[("a", 0), ("b", 0), ("c", 1)]);
    store.update_quota_esti(1, 4).unwrap();
    let mut logs = Vec::new();
    let mut states = vec![snapshot(&store)];
    let steps: Vec<Box<dyn Fn(&mut PjStore) -> Result<PjLog, PjErr>>> = vec![
        Box::new(|s| s.create(named("d", 2))),
        Box::new(|s| s.update_name(2, "bb".to_string())),
        Box::new(|s| s.update_weight(1, 9)),
        Box::new(|s| s.update_deadline(3, Some(77))),
        Box::new(|s| s.update_deadline(3, None)),
        Box::new(|s| s.update_quota_done(1, 6)),
        Box::new(|s| s.update_quota_esti(1, 10)),
        Box::new(|s| s.add_deps(1, 2)),
        Box::new(|s| s.add_deps(1, 2)),
        Box::new(|s| s.rmv_deps(1, 2)),
        Box::new(|s| s.add_deps(2, 2)),
        Box::new(|s| s.rmv_deps(2, 2)),
        Box::new(|s| s.update_pp(3, 2)),
        Box::new(|s| s.delete(4)),
        Box::new(|s| s.add_event(1, 3)),
        Box::new(|s| s.rmv_event(1, 3)),
    ];
    for step in steps.iter() {
        logs.push(step(&mut store).unwrap());
        states.push(snapshot(&store));
    }
    assert_eq!(store.get_by_id(3).unwrap().pp, 2);
    while let Some(log) = logs.pop() {
        states.pop();
        store.undo(log);
        assert_eq!(&snapshot(&store), states.last().unwrap());
    }
    assert!(store.get_by_id(4).is_none());
    assert_eq!(store.get_by_name(&"b".to_string()).unwrap().id(), 2);
}

#[test]
fn project_may_depend_on_itself() {
    let mut store = store_with(&[("a", 0), ("b", 0)]);
    assert!(matches!(store.add_deps(1, 1), Ok(PjLog::DepsAdd { id: 1, add: 1 })));
    assert_eq!(store.get_by_id(1).unwrap().deps, vec![1]);
    assert_eq!(store.get_by_id(1).unwrap().deps_rvs, vec![1]);
    assert!(store.get_by_id(2).unwrap().deps_rvs.is_empty());
    assert!(matches!(store.add_deps(1, 1), Ok(PjLog::Nothing)));
    assert!(matches!(store.delete(1), Err(PjErr::BannedByPeerDependency)));
    assert!(matches!(store.rmv_deps(1, 1), Ok(PjLog::DepsRmv { id: 1, rmv: 1 })));
    assert!(store.get_by_id(1).unwrap().deps.is_empty());
    assert!(store.get_by_id(1).unwrap().deps_rvs.is_empty());
    assert!(matches!(store.delete(1), Ok(_)));
}

#[test]
fn undo_takes_a_dependency_on_itself_back() {
    let mut store = store_with(&[("a", 0), ("b", 0)]);
    let log = store.add_deps(2, 2).unwrap();
    store.undo(log);
    assert!(store.get_by_id(2).unwrap().deps.is_empty());
    assert!(store.get_by_id(2).unwrap().deps_rvs.is_empty());
    store.add_deps(2, 2).unwrap();
    let log = store.rmv_deps(2, 2).unwrap();
    store.undo(log);
    assert_eq!(store.get_by_id(2).unwrap().deps, vec![2]);
    assert_eq!(store.get_by_id(2).unwrap().deps_rvs, vec![2]);
}

#[test]
fn root_depends_on_nothing() {
    let mut store = store_with(&[("a", 0)]);
    assert!(matches!(store.add_deps(0, 0), Err(PjErr::DependencyNotInPeer)));
    assert!(matches!(store.add_deps(0, 1), Err(PjErr::DependencyNotInPeer)));
}
