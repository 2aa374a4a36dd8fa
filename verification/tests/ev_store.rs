use tman::data::State;
use tman::store::ev::{Ev, EvErr, EvLog, EvStore};
use tman::store::pj::{Pj, PjLog, PjStore};
use tman::store::{DBErr, DBLog, DataBase};

fn stores() -> (EvStore, PjStore) {
    let mut pj = PjStore::new();
    pj.create(Pj::new("a".to_string())).unwrap();
    (EvStore::new(), pj)
}

#[test]
fn create_notes_the_event_with_its_project() {
    let (mut ev, mut pj) = stores();
    let logs = ev.create(Ev::new("talk".to_string(), 1, 100, 2), &mut pj).unwrap();
    assert!(matches!(logs, (EvLog::Create { id: 0 }, PjLog::AddEvent { id: 1, ev: 0 })));
    assert_eq!(pj.get_by_id(1).unwrap().chev, vec![0]);
    let got = ev.get_by_name("talk").unwrap();
    assert_eq!((got.id(), got.pp(), got.time(), got.quota_esti()), (0, 1, 100, 2));
    assert_eq!(ev.get_by_id(0).unwrap().name(), "talk");
    assert!(ev.get_by_id(1).is_none());
}

#[test]
fn create_refuses_clashes_and_unknown_projects() {
    let (mut ev, mut pj) = stores();
    ev.create(Ev::new("talk".to_string(), 1, 100, 2), &mut pj).unwrap();
    assert!(matches!(ev.create(Ev::new("walk".to_string(), 1, 100, 2), &mut pj), Err(EvErr::TimeClash)));
    assert!(matches!(ev.create(Ev::new("talk".to_string(), 1, 101, 2), &mut pj), Err(EvErr::NameClash)));
    assert!(matches!(ev.create(Ev::new("walk".to_string(), 5, 101, 2), &mut pj), Err(EvErr::ParentNotExist)));
    assert!(ev.get_by_id(1).is_none());
    assert_eq!(pj.get_by_id(1).unwrap().chev, vec![0]);
}

#[test]
fn delete_strikes_the_event_from_its_project() {
    let (mut ev, mut pj) = stores();
    ev.create(Ev::new("talk".to_string(), 1, 100, 2), &mut pj).unwrap();
    assert!(matches!(ev.delete(3, &mut pj), Err(EvErr::InvalidEventId)));
    assert!(matches!(ev.delete(0, &mut pj), Ok(EvLog::Delete { old }) if old.name() == "talk"));
    assert!(pj.get_by_id(1).unwrap().chev.is_empty());
    assert!(ev.get_by_name("talk").is_none());
    assert!(ev.check_exists(0).is_err());
    assert!(matches!(ev.create(Ev::new("talk".to_string(), 0, 100, 2), &mut pj), Ok((EvLog::Create { id: 1 }, _))));
}

#[test]
fn updates_keep_names_and_times_apart() {
    let (mut ev, mut pj) = stores();
    ev.create(Ev::new("talk".to_string(), 1, 100, 2), &mut pj).unwrap();
    ev.create(Ev::new("walk".to_string(), 0, 200, 3), &mut pj).unwrap();
    assert!(matches!(ev.update_name(1, "talk".to_string()), Err(EvErr::NameClash)));
    assert!(matches!(ev.update_name(1, "walk".to_string()), Err(EvErr::NameClash)));
    assert!(matches!(ev.update_name(1, "hike".to_string()), Ok(EvLog::Name { id: 1, old }) if old == "walk"));
    assert!(matches!(ev.update_time(1, 100), Err(EvErr::TimeClash)));
    assert!(matches!(ev.update_time(1, 300), Ok(EvLog::Time { id: 1, old: 200 })));
    assert!(matches!(ev.update_time(9, 300), Err(EvErr::InvalidEventId)));
    assert!(matches!(ev.update_quota_esti(1, 9), Ok(EvLog::QuotaEsti { id: 1, old: 3 })));
    assert!(matches!(ev.update_state(1, State::Done), Ok(EvLog::State { id: 1, old: State::Todo })));
    assert!(matches!(ev.update_state(1, State::Todo), Err(EvErr::InvalidStateChange)));
    let mut names = ev.get_all_names().unwrap();
    names.sort();
    assert_eq!(names, vec!["hike", "talk"]);
    let got = ev.get_by_name("hike").unwrap();
    assert_eq!((got.time(), got.quota_esti(), got.state), (300, 9, State::Done));
}

#[test]
fn moving_an_event_changes_both_projects() {
    let (mut ev, mut pj) = stores();
    ev.create(Ev::new("talk".to_string(), 1, 100, 2), &mut pj).unwrap();
    assert!(matches!(ev.update_pp(0, 7, &mut pj), Err(EvErr::ParentNotExist)));
    assert!(matches!(ev.update_pp(4, 0, &mut pj), Err(EvErr::InvalidEventId)));
    assert!(matches!(ev.update_pp(0, 1, &mut pj), Ok(EvLog::Parent { id: 0, old: 1 })));
    assert_eq!(pj.get_by_id(1).unwrap().chev, vec![0]);
    assert!(matches!(ev.update_pp(0, 0, &mut pj), Ok(EvLog::Parent { id: 0, old: 1 })));
    assert!(pj.get_by_id(1).unwrap().chev.is_empty());
    assert_eq!(pj.get_by_id(0).unwrap().chev, vec![0]);
    assert_eq!(ev.get_by_id(0).unwrap().pp(), 0);
}

#[test]
fn colour_packs_into_one_number() {
    let mut ev = Ev::new("e".to_string(), 0, 0, 0);
    ev.color = (0x12, 0x34, 0x56);
    assert_eq!(ev.color_usize(), 0x123456);
}

#[test]
fn database_gets_or_creates_projects_by_name() {
    let mut db = DataBase::new(8);
    assert_eq!(db.tz(), 8);
    let a = db.pj_get_or_create_by_name("a");
    assert_eq!((a.id(), a.pp), (1, 0));
    let again = db.pj_get_or_create_by_name("a");
    assert_eq!(again.id(), 1);
    assert!(db.pj_get_by_id(2).is_none());
    assert_eq!(db.pj_get_by_name("a").unwrap().id(), 1);
    assert!(db.pj_get_by_name("b").is_none());
    let mut names = db.pj_list().unwrap();
    names.sort();
    assert_eq!(names, vec!["a", "root"]);
    assert!(db.ev_list().unwrap().is_empty());
    assert!(db.ev_get_by_name("x").is_none());
    assert!(db.ev_get_by_id(0).is_none());
}

#[test]
fn database_renames_and_reports_refusals() {
    let mut db = DataBase::new(0);
    db.pj_get_or_create_by_name("a");
    db.pj_get_or_create_by_name("b");
    assert_eq!(db.pj_set_name(1, "b".to_string()), Err(DBErr::Pj(tman::store::pj::PjErr::NameNotDistinct)));
    assert_eq!(db.pj_set_name(0, "r".to_string()), Err(DBErr::Pj(tman::store::pj::PjErr::NameOfRootCannotBeModified)));
    assert_eq!(db.pj_set_name(1, "c".to_string()), Ok(()));
    assert_eq!(db.pj_get_by_id(1).unwrap().name(), "c");
    assert_eq!(db.ev_set_name(0, "e".to_string()), Err(DBErr::Ev(EvErr::InvalidEventId)));
    db.set_tz(-3);
    assert_eq!(db.tz(), -3);
    assert_eq!(db.datetime_loc(1_700_000_000), Some(1_700_000_000 - 3 * 3600));
    assert_eq!(db.datetime_loc(i64::MIN), None);
}

fn picture(ev: &EvStore, pj: &PjStore) -> Vec<String> {
    let mut out = vec![];
    for id in 0..ev.len() {
        out.push(match ev.get_by_id(id) {
            Some(e) => format!("{} {} {} {} {} {:?}", e.id(), e.pp(), e.name(), e.time(), e.quota_esti(), e.state),
            None => "-".to_string(),
        });
    }
    for id in 0..pj.len() {
        let mut chev = pj.get_by_id(id).map(|p| p.chev).unwrap_or_default();
        chev.sort();
        out.push(format!("{chev:?}"));
    }
    out
}

#[test]
fn undo_takes_each_change_to_an_event_back() {
    let (mut ev, mut pj) = stores();
    ev.create(Ev::new("talk".to_string(), 1, 100, 2), &mut pj).unwrap();
    ev.create(Ev::new("walk".to_string(), 0, 200, 3), &mut pj).unwrap();
    let mut pictures = vec![picture(&ev, &pj)];
    let mut logs = vec![];
    logs.push(ev.create(Ev::new("swim".to_string(), 1, 300, 4), &mut pj).unwrap().0);
    pictures.push(picture(&ev, &pj));
    let steps: Vec<Box<dyn Fn(&mut EvStore, &mut PjStore) -> Result<EvLog, EvErr>>> = vec![
        Box::new(|e, _| e.update_name(0, "chat".to_string())),
        Box::new(|e, _| e.update_time(0, 150)),
        Box::new(|e, _| e.update_quota_esti(1, 9)),
        Box::new(|e, _| e.update_state(1, State::Abort)),
        Box::new(|e, p| e.update_pp(0, 0, p)),
        Box::new(|e, p| e.update_pp(0, 0, p)),
        Box::new(|e, p| e.delete(1, p)),
    ];
    for step in steps.iter() {
        logs.push(step(&mut ev, &mut pj).unwrap());
        pictures.push(picture(&ev, &pj));
    }
    assert!(ev.get_by_id(1).is_none());
    while let Some(log) = logs.pop() {
        pictures.pop();
        ev.undo(log, &mut pj);
        assert_eq!(&picture(&ev, &pj), pictures.last().unwrap());
    }
    assert_eq!(ev.len(), 2);
    assert_eq!(ev.get_by_name("walk").unwrap().quota_esti(), 3);
    assert_eq!(ev.get_by_name("talk").unwrap().time(), 100);
}

#[test]
fn database_of_parts_keeps_the_record_it_is_given() {
    let mut db = DataBase::new(3);
    db.pj_get_or_create_by_name("a");
    db.pj_set_name(1, "b".to_string()).unwrap();
    assert_eq!(db.log().len(), 2);
    let again = DataBase::from_parts(db.tz(), db.pj().clone(), db.ev().clone(), db.log().clone()).unwrap();
    assert_eq!(again.tz(), 3);
    assert_eq!(again.log().len(), 2);
    assert!(matches!(again.log()[0][0], DBLog::Pj(PjLog::Create { id: 1 })));
    assert!(matches!(&again.log()[1][0], DBLog::Pj(PjLog::Name { id: 1, old }) if old == "a"));
    assert_eq!(again.pj_get_by_id(1).unwrap().name(), "b");
    let bare = DataBase::from_parts(0, PjStore::new(), EvStore::new(), Vec::new()).unwrap();
    assert!(bare.log().is_empty());
}
