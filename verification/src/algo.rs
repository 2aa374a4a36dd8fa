//! The steps of a plan that is made unit by unit: how much of a day is left
//! for projects, and what the choice of a project for one unit of work does
//! to the day's list, to the projects that may not be chosen again, and to
//! the project itself. Which project is chosen is the caller's affair.

use crate::data::auto_schedule;
use crate::data::auto_schedule::amount_sum;
use crate::data::{Data, State};
use crate::idset;
use crate::store::pj::{Pj, PjView};
use vstd::prelude::*;

verus! {

/// What a day of `quota_each_day` units of work leaves for the projects once
/// its events have taken `consumed` of them.
pub fn day_available(quota_each_day: usize, consumed: usize) -> (left: usize)
    ensures
        left == if consumed >= quota_each_day {
            0
        } else {
            quota_each_day - consumed
        },
{
    if consumed >= quota_each_day {
        0
    } else {
        quota_each_day - consumed
    }
}

/// The list `list` with one more unit of work for the project `id`: in its
/// first entry for `id`, or in a new entry at the end where it has none.
pub open spec fn with_unit(list: Seq<(usize, usize)>, id: usize) -> Seq<(usize, usize)>
    decreases list.len(),
{
    if list.len() == 0 {
        seq![(id, 1usize)]
    } else if list[0].0 == id {
        list.update(0, (id, (list[0].1 + 1) as usize))
    } else {
        seq![list[0]] + with_unit(list.drop_first(), id)
    }
}

/// The work done on the project `pj` after one more unit: one more while it
/// is below the estimate.
pub open spec fn unit_done(pj: Pj) -> usize {
    if pj.quota_done < pj.quota_esti {
        (pj.quota_done + 1) as usize
    } else {
        pj.quota_done
    }
}

/// The state of the project `pj` after one more unit: done where the work
/// done then equals the estimate.
pub open spec fn unit_state(pj: Pj) -> State {
    if unit_done(pj) == pj.quota_esti {
        State::Done
    } else {
        pj.state
    }
}

/// The project `pj` takes no unit: it was given up, and the unit would make
/// it done.
pub open spec fn unit_refused(pj: Pj) -> bool {
    pj.state == State::Abort && unit_done(pj) == pj.quota_esti
}

/// The projects after the project `id` took one unit of work. Where the unit
/// makes it done, the projects below it that were still to do are done with
/// it. Nothing changes where the project takes no unit.
pub open spec fn after_unit(data: Data, id: int) -> Seq<Option<PjView>> {
    let store = data.projects();
    let was = store.at(id);
    if unit_refused(was) {
        store@
    } else {
        Seq::new(
            store@.len(),
            |i: int|
                if !store.live(i) {
                    None
                } else if i == id {
                    Some(
                        PjView { quota_done: unit_done(was), state: unit_state(was), ..was@ },
                    )
                } else {
                    Some(
                        PjView {
                            state: if was.state != unit_state(was) && store.marked(id, i) {
                                State::Done
                            } else {
                                store.at(i)@.state
                            },
                            ..store.at(i)@
                        },
                    )
                },
        )
    }
}

proof fn lemma_amounts_nonnegative(list: Seq<(usize, usize)>)
    ensures
        amount_sum(list) >= 0,
    decreases list.len(),
{
    if list.len() > 0 {
        lemma_amounts_nonnegative(list.drop_last());
    }
}

proof fn lemma_entry_bound(list: Seq<(usize, usize)>, k: int)
    requires
        0 <= k < list.len(),
    ensures
        list[k].1 <= amount_sum(list),
    decreases list.len(),
{
    lemma_amounts_nonnegative(list.drop_last());
    if k < list.len() - 1 {
        lemma_entry_bound(list.drop_last(), k);
    }
}

proof fn lemma_first_entry(list: Seq<(usize, usize)>, id: usize, k: int)
    requires
        0 <= k < list.len(),
        list[k].0 == id,
        forall|j: int| 0 <= j < k ==> (#[trigger] list[j]).0 != id,
    ensures
        with_unit(list, id) == list.update(k, (id, (list[k].1 + 1) as usize)),
    decreases k,
{
    if k > 0 {
        let tail = list.drop_first();
        assert(list[0].0 != id);
        assert forall|j: int| 0 <= j < k - 1 implies (#[trigger] tail[j]).0 != id by {
            assert(tail[j] == list[j + 1]);
        }
        lemma_first_entry(tail, id, k - 1);
        assert(seq![list[0]] + tail.update(k - 1, (id, (list[k].1 + 1) as usize)) =~= list.update(
            k,
            (id, (list[k].1 + 1) as usize),
        ));
    }
}

proof fn lemma_no_entry(list: Seq<(usize, usize)>, id: usize)
    requires
        forall|j: int| 0 <= j < list.len() ==> (#[trigger] list[j]).0 != id,
    ensures
        with_unit(list, id) == list.push((id, 1usize)),
    decreases list.len(),
{
    if list.len() == 0 {
        assert(seq![(id, 1usize)] =~= list.push((id, 1usize)));
    } else {
        let tail = list.drop_first();
        assert(list[0].0 != id);
        assert forall|j: int| 0 <= j < tail.len() implies (#[trigger] tail[j]).0 != id by {
            assert(tail[j] == list[j + 1]);
        }
        lemma_no_entry(tail, id);
        assert(seq![list[0]] + tail.push((id, 1usize)) =~= list.push((id, 1usize)));
    }
}

/// One more unit in an entry of a list is one more unit for the project of
/// that entry, and for no other.
proof fn lemma_unit_counts(list: Seq<(usize, usize)>, k: int, x: int)
    requires
        0 <= k < list.len(),
        list[k].1 < usize::MAX,
    ensures
        auto_schedule::given(list.update(k, (list[k].0, (list[k].1 + 1) as usize)), x)
            == auto_schedule::given(list, x) + if x == list[k].0 {
            1int
        } else {
            0int
        },
        amount_sum(list.update(k, (list[k].0, (list[k].1 + 1) as usize))) == amount_sum(list) + 1,
    decreases list.len(),
{
    let new = list.update(k, (list[k].0, (list[k].1 + 1) as usize));
    if k == list.len() - 1 {
        assert(new.drop_last() =~= list.drop_last());
    } else {
        lemma_unit_counts(list.drop_last(), k, x);
        assert(new.drop_last() =~= list.drop_last().update(
            k,
            (list[k].0, (list[k].1 + 1) as usize),
        ));
    }
}

/// The work that `list` gives to the project `id`.
fn units_of(list: &Vec<(usize, usize)>, id: usize) -> (n: usize)
    requires
        amount_sum(list@) <= usize::MAX,
    ensures
        n == auto_schedule::given(list@, id as int),
{
    let mut n: usize = 0;
    let mut i: usize = 0;
    let ghost mut all: int = 0;
    while i < list.len()
        invariant
            i <= list@.len(),
            amount_sum(list@) <= usize::MAX,
            n == auto_schedule::given(list@.subrange(0, i as int), id as int),
            all == amount_sum(list@.subrange(0, i as int)),
            n <= all,
        decreases list@.len() - i,
    {
        proof {
            let head = list@.subrange(0, i + 1);
            let tail = list@.subrange(i + 1, list@.len() as int);
            assert(head.drop_last() =~= list@.subrange(0, i as int));
            assert(head + tail =~= list@);
            auto_schedule::lemma_amount_sum_concat(head, tail);
            lemma_amounts_nonnegative(tail);
            all = all + list@[i as int].1;
        }
        if list[i].0 == id {
            n = n + list[i].1;
        }
        i += 1;
    }
    proof {
        assert(list@.subrange(0, i as int) =~= list@);
    }
    n
}

/// Adds one unit of work for the project `id` to `list`.
fn note_unit(list: &mut Vec<(usize, usize)>, id: usize)
    requires
        amount_sum(old(list)@) < usize::MAX,
    ensures
        final(list)@ == with_unit(old(list)@, id),
        amount_sum(final(list)@) == amount_sum(old(list)@) + 1,
        forall|x: int| #[trigger]
            auto_schedule::given(final(list)@, x) == auto_schedule::given(old(list)@, x) + if x
                == id {
                1int
            } else {
                0int
            },
{
    let ghost before = list@;
    let mut k: usize = 0;
    while k < list.len() && list[k].0 != id
        invariant
            k <= list@.len(),
            list@ == before,
            forall|j: int| 0 <= j < k ==> (#[trigger] list@[j]).0 != id,
        decreases list@.len() - k,
    {
        k += 1;
    }
    if k < list.len() {
        proof {
            lemma_entry_bound(before, k as int);
            lemma_first_entry(before, id, k as int);
            assert forall|x: int| #[trigger]
                auto_schedule::given(before.update(k as int, (id, (before[k as int].1 + 1) as usize)), x)
                    == auto_schedule::given(before, x) + if x == id {
                    1int
                } else {
                    0int
                } by {
                lemma_unit_counts(before, k as int, x);
            }
            lemma_unit_counts(before, k as int, 0);
        }
        let amount = list[k].1;
        list[k] = (id, amount + 1);
    } else {
        proof {
            lemma_no_entry(before, id);
            assert(before.push((id, 1usize)).drop_last() =~= before);
        }
        list.push((id, 1));
    }
}

/// The project `chosen` takes one unit of the day's work.
///
/// The day's list `given` counts one more unit for it, in its first entry
/// for the project or in a new one at the end. The project has done one more
/// unit of work, unless it had done all that is estimated, and is done where
/// that equals the estimate; the projects below it that were still to do are
/// then done with it. A project that was given up takes no unit that would
/// make it done: nothing changes in the store then. The project joins `ban`,
/// the projects not to be chosen again on this day, where the day's list
/// gives it as many units as its limit for a day, or where it took no unit.
pub fn place_unit(
    data: &mut Data,
    chosen: usize,
    given: &mut Vec<(usize, usize)>,
    ban: &mut Vec<usize>,
)
    requires
        old(data).wf(),
        old(data).projects().live(chosen as int),
        amount_sum(old(given)@) < usize::MAX,
    ensures
        final(data).wf(),
        final(data).zone() == old(data).zone(),
        final(data).events() == old(data).events(),
        final(data).changes().len() >= old(data).changes().len(),
        final(data).changes().subrange(0, old(data).changes().len() as int) == old(
            data,
        ).changes(),
        final(given)@ == with_unit(old(given)@, chosen),
        amount_sum(final(given)@) == amount_sum(old(given)@) + 1,
        forall|x: int| #[trigger]
            auto_schedule::given(final(given)@, x) == auto_schedule::given(old(given)@, x) + if x
                == chosen {
                1int
            } else {
                0int
            },
        final(ban)@ == if auto_schedule::given(final(given)@, chosen as int) == old(
            data,
        ).projects().at(chosen as int).limit || unit_refused(
            old(data).projects().at(chosen as int),
        ) {
            idset::with(old(ban)@, chosen)
        } else {
            old(ban)@
        },
        final(data).projects()@ == after_unit(*old(data), chosen as int),
        unit_refused(old(data).projects().at(chosen as int)) ==> *final(data) == *old(data),
        !unit_refused(old(data).projects().at(chosen as int)) ==> {
            let was = old(data).projects().at(chosen as int);
            let now = final(data).projects().at(chosen as int);
            &&& final(data).projects().live(chosen as int)
            &&& now.quota_done == unit_done(was)
            &&& now.quota_esti == was.quota_esti
            &&& now.state == unit_state(was)
            &&& now.limit == was.limit
        },
{
    let ghost prev = *data;
    let ghost was = prev.projects().at(chosen as int);
    note_unit(given, chosen);
    let count = units_of(given, chosen);
    let got = data.get_project_by_id(chosen);
    let mut refused = false;
    let mut limit: usize = 0;
    match got {
        Ok(mut p) => {
            proof {
                assert(prev.projects().record_ok(chosen as int));
            }
            limit = p.limit;
            if p.quota.0 < p.quota.1 {
                p.quota = (p.quota.0 + 1, p.quota.1);
            }
            if p.quota.0 == p.quota.1 {
                p.state = State::Done;
            }
            proof {
                lemma_unit_change(prev, p);
            }
            refused = data.upsert_project(p).is_err();
            proof {
                if !refused {
                    data.projects().lemma_view();
                    assert(data.projects()@[chosen as int] == after_unit(prev, chosen as int)[chosen as int]);
                }
            }
        },
        Err(_) => {},
    }
    proof {
        assert(data.changes().subrange(0, prev.changes().len() as int) =~= prev.changes());
    }
    if count == limit || refused {
        idset::insert(ban, chosen);
    }
}

/// A change that gives a project one more unit of work, and leaves what
/// else is said of it as it is, is refused only where the project was given
/// up and the unit would make it done; where it is taken, only the work done
/// and the states change.
proof fn lemma_unit_change(data: Data, p: crate::data::Project)
    requires
        data.wf(),
        data.projects().live(p.id as int),
        p@ == (crate::data::ProjectView {
            quota: (unit_done(data.projects().at(p.id as int)), data.projects().at(
                p.id as int,
            ).quota_esti),
            state: unit_state(data.projects().at(p.id as int)),
            ..crate::data::project::project_view(data.projects().at(p.id as int))
        }),
    ensures
        p.id < data.projects()@.len(),
        data.upsert_refusal(p) is Some <==> unit_refused(data.projects().at(p.id as int)),
        !unit_refused(data.projects().at(p.id as int)) ==> data.after_update(p) == after_unit(
            data,
            p.id as int,
        ),
{
    let store = data.projects();
    let id = p.id as int;
    let was = store.at(id);
    store.lemma_view();
    assert(store.record_ok(id));
    assert(store@[id] is Some);
    if !unit_refused(was) {
        let goal = after_unit(data, id);
        let got = data.after_update(p);
        let deps = data.siblings_among(id, p.parent as int, p.dependencies@);
        assert(deps =~= was@.deps) by {
            assert forall|d: usize| deps.contains(d) <==> was@.deps.contains(d) by {
                if was.deps@.contains(d) {
                    let k = choose|k: int| 0 <= k < was.deps@.len() && was.deps@[k] == d;
                    assert(store.at(was.pp as int).chpj@.contains(was.deps@[k]));
                }
            }
        }
        assert forall|i: int| 0 <= i < got.len() implies got[i] == goal[i] by {
            if store.live(i) {
                let v = store.at(i)@;
                assert(store.record_ok(i));
                if store.at(i).deps_rvs@.contains(p.id) {
                    let m = choose|m: int|
                        0 <= m < store.at(i).deps_rvs@.len() && store.at(i).deps_rvs@[m] == p.id;
                    assert(store.at(store.at(i).deps_rvs@[m] as int).deps@.contains(i as usize));
                }
                if was.deps@.contains(i as usize) {
                    let k = choose|k: int| 0 <= k < was.deps@.len() && was.deps@[k] == i;
                    assert(store.at(was.deps@[k] as int).deps_rvs@.contains(p.id));
                }
                assert(i as usize == i);
                if deps.contains(i as usize) {
                    assert(v.deps_rvs.insert(p.id) =~= v.deps_rvs);
                } else {
                    assert(v.deps_rvs.remove(p.id) =~= v.deps_rvs);
                }
            }
        }
        assert(got =~= goal);
    }
}

} // verus!
