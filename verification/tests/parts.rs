use tman::data::quota::capped_add;
use tman::data::{Data, Project, State};
use tman::idset;
use tman::index::TimeIndex;
use tman::names::{name_less, NameIndex};
use tman::util::{conv_loc_utc, conv_utc_loc, get_days_from_month, local_time, parse_year_month_date};
use tman::viewer::{ColorBlock, Switch};

#[test]
fn time_index_keeps_pairs_in_order() {
    let mut idx = TimeIndex::new();
    for (t, id) in [(30, 1), (10, 2), (20, 3), (10, 1), (20, 3)] {
        idx.insert(t, id);
    }
    assert_eq!(idx.len(), 4);
    assert_eq!(idx.range(i64::MIN, None), vec![1, 2, 3, 1]);
    assert_eq!(idx.range(10, Some(30)), vec![1, 2, 3]);
    assert_eq!(idx.range(11, Some(20)), Vec::<usize>::new());
    assert_eq!(idx.range(25, None), vec![1]);
    assert!(idx.contains(10, 2));
    assert!(!idx.contains(10, 3));
    assert_eq!(idx.get(20), Some(3));
    assert_eq!(idx.get(15), None);
    assert_eq!(idx.last_time(), Some(30));
    idx.remove(30, 1);
    idx.remove(30, 1);
    idx.remove(10, 9);
    assert_eq!(idx.last_time(), Some(20));
    assert_eq!(idx.range(0, Some(100)), vec![1, 2, 3]);
    assert_eq!(TimeIndex::new().last_time(), None);
}

#[test]
fn time_index_reaches_the_last_time() {
    let mut idx = TimeIndex::new();
    idx.insert(i64::MAX, 5);
    idx.insert(i64::MIN, 6);
    assert_eq!(idx.range(i64::MIN, None), vec![6, 5]);
    assert_eq!(idx.range(i64::MIN, Some(i64::MAX)), vec![6]);
}

#[test]
fn names_are_ordered_by_their_bytes() {
    assert!(name_less("a", "b"));
    assert!(!name_less("b", "a"));
    assert!(!name_less("a", "a"));
    assert!(name_less("", "a"));
    assert!(name_less("a", "ab"));
    assert!(name_less("Z", "a"));
    assert!(name_less("z", "é"));
    assert!(name_less("é", "中"));
}

#[test]
fn name_index_finds_inserts_and_removes() {
    let mut idx = NameIndex::new();
    for (k, name) in ["m", "c", "x", "a"].iter().enumerate() {
        idx.insert(name.to_string(), k);
    }
    assert_eq!(idx.names(), vec!["a", "c", "m", "x"]);
    assert_eq!(idx.get("c"), Some(1));
    assert_eq!(idx.get("b"), None);
    idx.remove("c");
    idx.remove("zz");
    assert_eq!(idx.get("c"), None);
    assert_eq!(idx.names(), vec!["a", "m", "x"]);
}

#[test]
fn id_sets_add_once_and_remove() {
    let mut v = vec![3, 1];
    idset::insert(&mut v, 2);
    idset::insert(&mut v, 3);
    assert_eq!(v, vec![3, 1, 2]);
    assert!(idset::contains(&v, 1));
    assert!(!idset::contains(&v, 7));
    idset::remove(&mut v, 3);
    idset::remove(&mut v, 9);
    assert_eq!(v, vec![1, 2]);
    assert_eq!(idset::copy(&v), v);
}

#[test]
fn capped_add_stops_at_the_largest_word() {
    assert_eq!(capped_add(2, 3), 5);
    assert_eq!(capped_add(usize::MAX - 1, 1), usize::MAX);
    assert_eq!(capped_add(usize::MAX - 1, 2), usize::MAX);
    assert_eq!(capped_add(usize::MAX, usize::MAX), usize::MAX);
}

#[test]
fn times_convert_between_zones() {
    assert_eq!(conv_utc_loc(1000, 8), 1000 + 8 * 3600);
    assert_eq!(conv_loc_utc(1000, 8), 1000 - 8 * 3600);
    assert_eq!(conv_loc_utc(conv_utc_loc(5, -12), -12), 5);
    assert_eq!(local_time(0, -1), Some(-3600));
    assert_eq!(local_time(i64::MAX, 1), None);
    assert_eq!(local_time(i64::MIN, -1), None);
    assert_eq!(local_time(i64::MAX, 0), Some(i64::MAX));
}

#[test]
fn colour_block_holds_its_three_bytes() {
    let block = ColorBlock::new(1u8, 2u8, 255u8);
    assert_eq!(block.color, (1, 2, 255));
    let edit = Switch::Edit { name: "a".to_string() };
    assert!(matches!(edit.clone(), Switch::Edit { name } if name == "a"));
}

fn project(name: &str, parent: usize, need: usize, deps: Vec<usize>) -> Project {
    let mut p = Project::new(name.to_string());
    p.parent = parent;
    p.quota = (0, need);
    p.dependencies = deps;
    p
}

fn sample() -> Data {
    // root: a(need 1) { c(2), d(4, after c) }, b(8, after a), e(16, after b)
    let mut data = Data::new(0);
    data.upsert_project(project("a", 0, 1, vec![])).unwrap();
    data.upsert_project(project("b", 0, 8, vec![1])).unwrap();
    data.upsert_project(project("c", 1, 2, vec![])).unwrap();
    data.upsert_project(project("d", 1, 4, vec![3])).unwrap();
    data.upsert_project(project("e", 0, 16, vec![2])).unwrap();
    data
}

#[test]
fn walks_go_down_the_tree_and_along_the_dependencies() {
    let data = sample();
    assert_eq!(data.recursive_children(0), vec![3, 4, 1, 2, 5, 0]);
    assert_eq!(data.recursive_children(1), vec![3, 4, 1]);
    assert_eq!(data.recursive_children(4), vec![4]);
    assert_eq!(data.recursive_dependencies(5), vec![1, 2, 5]);
    assert_eq!(data.recursive_dependencies(1), vec![1]);
    assert_eq!(data.recursive_reverse_dependencies(1), vec![2, 5, 1]);
    assert_eq!(data.recursive_reverse_dependencies_exclusive_and_same_for_parent(0), Vec::<usize>::new());
    assert_eq!(data.recursive_reverse_dependencies_exclusive_and_same_for_parent(4), vec![3]);
    assert_eq!(data.recursive_reverse_dependencies_exclusive_and_same_for_parent(5), vec![1, 2]);
}

#[test]
fn dependencies_in_a_circle_are_walked_once() {
    let mut data = Data::new(0);
    data.upsert_project(project("a", 0, 1, vec![])).unwrap();
    data.upsert_project(project("b", 0, 2, vec![1])).unwrap();
    let mut a = data.get_project_by_id(1).unwrap();
    a.dependencies = vec![2];
    data.upsert_project(a).unwrap();
    assert_eq!(data.recursive_dependencies(1), vec![2, 1]);
    assert_eq!(data.recursive_dependencies(2), vec![1, 2]);
    assert_eq!(data.aggregate_quota(), vec![3, 3, 3]);
}

#[test]
fn need_adds_up_below_and_before() {
    let data = sample();
    // below: root 31, a 7, b 8, c 2, d 4, e 16.
    // waits: b for a (7); d for c (2); e for b and a (15).
    assert_eq!(data.aggregate_quota(), vec![31, 7, 15, 2, 6, 31]);
    assert!(data.can_schedule());
}

#[test]
fn need_counts_only_what_is_to_do() {
    let mut data = sample();
    let mut c = data.get_project_by_id(3).unwrap();
    c.state = State::Done;
    data.upsert_project(c).unwrap();
    let mut e = data.get_project_by_id(5).unwrap();
    e.quota = (6, 16);
    data.upsert_project(e).unwrap();
    assert_eq!(data.aggregate_quota(), vec![23, 5, 13, 0, 4, 23]);
}

#[test]
fn need_beyond_a_machine_word_is_capped() {
    let mut data = Data::new(0);
    data.upsert_project(project("a", 0, usize::MAX - 1, vec![])).unwrap();
    data.upsert_project(project("b", 0, 5, vec![1])).unwrap();
    assert_eq!(data.aggregate_quota(), vec![usize::MAX, usize::MAX - 1, usize::MAX]);
    assert!(!data.can_schedule());
}

#[test]
fn urgency_is_need_over_days_left() {
    let mut data = sample();
    let mut e = data.get_project_by_id(5).unwrap();
    e.deadline = Some(10 * 86400 + 5);
    data.upsert_project(e).unwrap();
    assert_eq!(data.urgency(5, 0), Some((31, 10)));
    assert_eq!(data.urgency(5, 10 * 86400), Some((31, 1)));
    assert_eq!(data.urgency(5, 20 * 86400), Some((31, 1)));
    assert_eq!(data.urgency(1, 0), None);
}

#[test]
fn active_projects_have_nothing_open_before_or_below() {
    let mut data = sample();
    assert_eq!(data.active_projects(&vec![]), vec![3]);
    assert_eq!(data.active_projects(&vec![3]), Vec::<usize>::new());
    let mut c = data.get_project_by_id(3).unwrap();
    c.state = State::Done;
    data.upsert_project(c).unwrap();
    assert_eq!(data.active_projects(&vec![]), vec![4]);
    assert_eq!(Project::new("x".to_string()).need_quota(), 0);
}

#[test]
fn calendar_gives_the_time_of_a_minute() {
    assert_eq!(parse_year_month_date(1970, 1, 1, 0, 0), Some(0));
    assert_eq!(parse_year_month_date(2023, 1, 2, 10, 30), Some(1672655400));
    assert_eq!(parse_year_month_date(1969, 12, 31, 23, 59), Some(-60));
    assert_eq!(parse_year_month_date(2023, 2, 29, 0, 0), None);
    assert_eq!(parse_year_month_date(2023, 13, 1, 0, 0), None);
    assert_eq!(parse_year_month_date(2023, 1, 1, 24, 0), None);
    assert_eq!(parse_year_month_date(2023, 1, 1, 0, 60), None);
    assert_eq!(parse_year_month_date(2023, -1, 1, 0, 0), None);
    assert_eq!(parse_year_month_date(1 << 40, 1, 1, 0, 0), None);
}

#[test]
fn calendar_counts_the_days_of_a_month() {
    assert_eq!(get_days_from_month(2023, 1), Some(31));
    assert_eq!(get_days_from_month(2023, 2), Some(28));
    assert_eq!(get_days_from_month(2024, 2), Some(29));
    assert_eq!(get_days_from_month(1900, 2), Some(28));
    assert_eq!(get_days_from_month(2000, 2), Some(29));
    assert_eq!(get_days_from_month(2023, 4), Some(30));
    assert_eq!(get_days_from_month(2023, 12), Some(31));
    assert_eq!(get_days_from_month(2023, 0), None);
    assert_eq!(get_days_from_month(2023, 13), None);
    assert_eq!(get_days_from_month(i32::MAX, 12), None);
}
