use tman::data::auto_schedule::DayPlan;
use tman::data::{Data, Event, Project, State};

const DAY: i64 = 86400;

fn project(name: &str, weight: usize, need: usize, deadline: Option<i64>, deps: Vec<usize>) -> Project {
    let mut p = Project::new(name.to_string());
    p.weight = weight;
    p.quota = (0, need);
    p.deadline = deadline;
    p.dependencies = deps;
    p
}

fn with_capacity(capacity: usize) -> Data {
    let mut data = Data::new(0);
    let mut root = data.get_project_by_id(0).unwrap();
    root.weight = capacity;
    data.upsert_project(root).unwrap();
    data
}

fn allocations(plan: &std::collections::VecDeque<DayPlan>) -> Vec<Vec<(usize, usize)>> {
    plan.iter().map(|d| d.allocations.clone()).collect()
}

#[test]
fn no_deadline_gives_an_empty_plan() {
    let mut data = with_capacity(10);
    data.upsert_project(project("a", 1, 5, None, vec![])).unwrap();
    assert!(data.auto_schedule(0).is_empty());
}

#[test]
fn deadline_before_the_start_gives_an_empty_plan() {
    let mut data = with_capacity(10);
    data.upsert_project(project("a", 1, 5, Some(DAY - 1), vec![])).unwrap();
    assert!(data.auto_schedule(DAY).is_empty());
}

#[test]
fn urgent_project_is_satisfied_and_the_other_takes_the_rest() {
    let mut data = with_capacity(10);
    data.upsert_project(project("a", 3, 5, Some(3 * DAY), vec![])).unwrap();
    data.upsert_project(project("b", 1, 20, None, vec![])).unwrap();
    let plan = data.auto_schedule(0);
    let days: Vec<i64> = plan.iter().map(|d| d.day).collect();
    assert_eq!(days, vec![0, DAY, 2 * DAY, 3 * DAY]);
    assert_eq!(
        allocations(&plan),
        vec![vec![], vec![(2, 5)], vec![(2, 10)], vec![(1, 5), (2, 5)]]
    );
}

#[test]
fn dependent_project_waits_for_its_dependency() {
    let mut data = with_capacity(4);
    data.upsert_project(project("d", 1, 6, None, vec![])).unwrap();
    data.upsert_project(project("c", 1, 6, Some(3 * DAY), vec![1])).unwrap();
    let c = data.get_project_by_id(2).unwrap();
    assert_eq!(c.dependencies, vec![1]);
    let plan = data.auto_schedule(0);
    assert_eq!(
        allocations(&plan),
        vec![vec![], vec![(1, 4)], vec![(2, 2), (1, 2)], vec![(2, 4)]]
    );
    // The day on which the dependency is complete.
    let done = plan.iter().rposition(|d| d.allocations.iter().any(|a| a.0 == 1)).unwrap();
    for (k, day) in plan.iter().enumerate() {
        if day.allocations.iter().any(|a| a.0 == 2) {
            assert!(k >= done);
        }
    }
}

#[test]
fn events_take_their_cost_out_of_the_day() {
    let mut data = with_capacity(10);
    data.upsert_project(project("a", 1, 30, Some(2 * DAY), vec![])).unwrap();
    data.upsert_event(Event { id: usize::MAX, name: "meeting".to_string(), time: DAY + 60, state: State::Todo, quota: 4 })
        .unwrap();
    data.upsert_event(Event { id: usize::MAX, name: "fair".to_string(), time: 2 * DAY, state: State::Todo, quota: 50 })
        .unwrap();
    let plan = data.auto_schedule(0);
    assert_eq!(allocations(&plan), vec![vec![(1, 10)], vec![(1, 6)], vec![]]);
    assert_eq!(plan[1].events.len(), 1);
    assert_eq!(plan[1].events[0].name, "meeting");
    assert_eq!(plan[2].events[0].quota, 50);
    for day in plan.iter() {
        let events: usize = day.events.iter().map(|e| e.quota).sum();
        let work: usize = day.allocations.iter().map(|a| a.1).sum();
        assert!(work <= 10usize.saturating_sub(events));
        if events <= 10 {
            assert!(events + work <= 10);
        }
    }
}

#[test]
fn plan_is_repeatable_and_leaves_the_store_alone() {
    let mut data = with_capacity(7);
    data.upsert_project(project("a", 2, 9, Some(4 * DAY), vec![])).unwrap();
    data.upsert_project(project("b", 5, 11, Some(2 * DAY), vec![])).unwrap();
    let first = allocations(&data.auto_schedule(0));
    let second = allocations(&data.auto_schedule(0));
    assert_eq!(first, second);
    assert_eq!(data.get_project_by_id(1).unwrap().quota, (0, 9));
}

#[test]
fn project_past_its_deadline_takes_no_work() {
    let mut data = with_capacity(10);
    data.upsert_project(project("early", 1, 5, Some(DAY), vec![])).unwrap();
    data.upsert_project(project("late", 1, 5, Some(3 * DAY), vec![])).unwrap();
    let plan = data.auto_schedule(0);
    assert_eq!(
        allocations(&plan),
        vec![vec![], vec![(1, 5)], vec![], vec![(2, 5)]]
    );
}

#[test]
fn children_wait_for_the_own_work_of_their_parent() {
    let mut data = with_capacity(3);
    data.upsert_project(project("parent", 1, 2, Some(2 * DAY), vec![])).unwrap();
    let mut child = project("child", 1, 4, None, vec![]);
    child.parent = 1;
    data.upsert_project(child).unwrap();
    let plan = data.auto_schedule(0);
    assert_eq!(
        allocations(&plan),
        vec![vec![], vec![(2, 3)], vec![(1, 2), (2, 1)]]
    );
}

#[test]
fn project_that_is_done_takes_no_work() {
    let mut data = with_capacity(3);
    data.upsert_project(project("a", 1, 5, Some(DAY), vec![])).unwrap();
    let mut a = data.get_project_by_id(1).unwrap();
    a.state = State::Done;
    data.upsert_project(a).unwrap();
    let plan = data.auto_schedule(0);
    assert_eq!(allocations(&plan), vec![vec![], vec![]]);
}
