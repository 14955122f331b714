//! Reopening a mission: its objects, their failure modes and their tracks
//! go back into an emptied registry, in the order the mission lists them.
//! Reading each track file is outside work; what came of it (loaded, or the
//! message of what went wrong) is part of the plan handed in here. A track
//! whose file could not be loaded is left out and its message collected.

use vstd::prelude::*;
use crate::registry::{
    has_mode, has_object, insert_error, mode_of_object, new_track_rows, object_id_seq, source_kind,
    ModeRow, ObjectRow, Registry, TrackRow,
};
use crate::text::str_views;

verus! {

/// A track of the mission, and what came of loading its file.
#[derive(Debug)]
pub struct PlanTrack {
    pub name: String,
    pub loaded: Result<(), String>,
}

/// A failure mode of an object, with its tracks.
#[derive(Debug)]
pub struct PlanMode {
    pub name: String,
    pub tracks: Vec<PlanTrack>,
}

/// An object of the mission: its name, the source it asks for, if any, and
/// its failure modes.
#[derive(Debug)]
pub struct PlanObject {
    pub name: String,
    pub source: Option<String>,
    pub modes: Vec<PlanMode>,
}

/// What a mission file says of objects, failure modes and tracks.
#[derive(Debug)]
pub struct MissionPlan {
    pub objects: Vec<PlanObject>,
    pub unassigned: Vec<PlanTrack>,
}

/// The failure modes of object `o`, in table order.
pub open spec fn modes_of(ms: Seq<ModeRow>, o: u64) -> Seq<ModeRow>
    decreases ms.len(),
{
    if ms.len() == 0 {
        Seq::empty()
    } else {
        let w = modes_of(ms.drop_last(), o);
        if ms.last().1 == o {
            w.push(ms.last())
        } else {
            w
        }
    }
}

/// Names of the tracks of failure mode `m`, in table order.
pub open spec fn mode_track_names(ts: Seq<TrackRow>, m: u64) -> Seq<Seq<char>>
    decreases ts.len(),
{
    if ts.len() == 0 {
        Seq::empty()
    } else {
        let w = mode_track_names(ts.drop_last(), m);
        if ts.last().3 == Some(m) {
            w.push(ts.last().1)
        } else {
            w
        }
    }
}

/// Names of the tracks that are not assigned, in table order.
pub open spec fn loose_track_names(ts: Seq<TrackRow>) -> Seq<Seq<char>>
    decreases ts.len(),
{
    if ts.len() == 0 {
        Seq::empty()
    } else {
        let w = loose_track_names(ts.drop_last());
        if ts.last().2 is None || ts.last().3 is None {
            w.push(ts.last().1)
        } else {
            w
        }
    }
}

/// Tracks `ts` are the tracks named `names`, in order, each saved with its
/// data so that it loads.
pub open spec fn tracks_named(ts: Seq<PlanTrack>, names: Seq<Seq<char>>) -> bool {
    &&& ts.len() == names.len()
    &&& forall|k: int| 0 <= k < ts.len() ==> (#[trigger] ts[k]).name@ == names[k] && ts[k].loaded is Ok
}

/// Failure mode `md` of a plan records mode `row` and its tracks.
pub open spec fn mode_planned(md: PlanMode, row: ModeRow, ts: Seq<TrackRow>) -> bool {
    md.name@ == row.2 && tracks_named(md.tracks@, mode_track_names(ts, row.0))
}

/// Object `ob` of a plan records object `row`, its source, and its failure
/// modes in table order.
pub open spec fn object_planned(ob: PlanObject, row: ObjectRow, ms: Seq<ModeRow>, ts: Seq<TrackRow>) -> bool {
    &&& ob.name@ == row.1
    &&& ob.source matches Some(src) && src@ == row.2
    &&& ob.modes@.len() == modes_of(ms, row.0).len()
    &&& forall|j: int| 0 <= j < ob.modes@.len() ==> mode_planned(#[trigger] ob.modes@[j], modes_of(ms, row.0)[j], ts)
}

/// `plan` records the tables: every object in table order with its modes
/// and their tracks, then the tracks that are not assigned.
pub open spec fn plan_records(plan: MissionPlan, os: Seq<ObjectRow>, ms: Seq<ModeRow>, ts: Seq<TrackRow>) -> bool {
    &&& plan.objects@.len() == os.len()
    &&& forall|i: int| 0 <= i < os.len() ==> object_planned(#[trigger] plan.objects@[i], os[i], ms, ts)
    &&& tracks_named(plan.unassigned@, loose_track_names(ts))
}

/// Where restoring stands: objects, failure modes, tracks, the messages
/// collected so far, and the next object, failure mode and track ids.
pub type Restoring = (Seq<ObjectRow>, Seq<ModeRow>, Seq<TrackRow>, Seq<Seq<char>>, int, int, int);

/// The registry and the messages as a `Restoring`.
pub open spec fn state_of(reg: Registry, errs: Seq<Seq<char>>) -> Restoring {
    (
        reg.objects(),
        reg.modes(),
        reg.tracks(),
        errs,
        reg.next_ids().0 as int,
        reg.next_ids().1 as int,
        reg.next_ids().2 as int,
    )
}

/// One track: a loaded one is added with the next track id under `o` and
/// `m`; otherwise its message is collected.
pub open spec fn restore_track(st: Restoring, t: PlanTrack, o: Option<u64>, m: Option<u64>) -> Restoring {
    match t.loaded {
        Ok(()) => (st.0, st.1, st.2.push((st.6 as u64, t.name@, o, m)), st.3, st.4, st.5, st.6 + 1),
        Err(e) => (st.0, st.1, st.2, st.3.push(e@), st.4, st.5, st.6),
    }
}

/// The tracks, in order.
pub open spec fn restore_tracks(st: Restoring, ts: Seq<PlanTrack>, o: Option<u64>, m: Option<u64>) -> Restoring
    decreases ts.len(),
{
    if ts.len() == 0 {
        st
    } else {
        restore_track(restore_tracks(st, ts.drop_last(), o, m), ts.last(), o, m)
    }
}

/// One failure mode of object `o`: it gets the next mode id, then its tracks
/// follow.
pub open spec fn restore_mode(st: Restoring, md: PlanMode, o: u64) -> Restoring {
    let id = st.5 as u64;
    restore_tracks(
        (st.0, st.1.push((id, o, md.name@)), st.2, st.3, st.4, st.5 + 1, st.6),
        md.tracks@,
        Some(o),
        Some(id),
    )
}

/// The failure modes of object `o`, in order.
pub open spec fn restore_modes(st: Restoring, ms: Seq<PlanMode>, o: u64) -> Restoring
    decreases ms.len(),
{
    if ms.len() == 0 {
        st
    } else {
        restore_mode(restore_modes(st, ms.drop_last(), o), ms.last(), o)
    }
}

/// The source an object of the plan ends with.
pub open spec fn plan_source(ob: PlanObject) -> Seq<char> {
    match ob.source {
        Some(s) => source_kind(s@),
        None => "files"@,
    }
}

/// One object: it gets the next object id, then its failure modes follow.
pub open spec fn restore_object(st: Restoring, ob: PlanObject) -> Restoring {
    let id = st.4 as u64;
    restore_modes(
        (st.0.push((id, ob.name@, plan_source(ob))), st.1, st.2, st.3, st.4 + 1, st.5, st.6),
        ob.modes@,
        id,
    )
}

/// The objects, in order.
pub open spec fn restore_objects(st: Restoring, os: Seq<PlanObject>) -> Restoring
    decreases os.len(),
{
    if os.len() == 0 {
        st
    } else {
        restore_object(restore_objects(st, os.drop_last()), os.last())
    }
}

/// The whole plan from empty tables and the given next ids: the objects
/// first, then the unassigned tracks.
pub open spec fn restored(plan: MissionPlan, next: (u64, u64, u64)) -> Restoring {
    let start: Restoring = (
        Seq::empty(),
        Seq::empty(),
        Seq::empty(),
        Seq::empty(),
        next.0 as int,
        next.1 as int,
        next.2 as int,
    );
    restore_tracks(restore_objects(start, plan.objects@), plan.unassigned@, None, None)
}

/// The ids the plan takes all fit in `u64`.
pub open spec fn restore_fits(plan: MissionPlan, next: (u64, u64, u64)) -> bool {
    let r = restored(plan, next);
    r.4 <= u64::MAX && r.5 <= u64::MAX && r.6 <= u64::MAX
}

/// No next id of `a` is past that of `b`.
pub open spec fn grows(a: Restoring, b: Restoring) -> bool {
    a.4 <= b.4 && a.5 <= b.5 && a.6 <= b.6
}

proof fn lemma_tracks(st: Restoring, ts: Seq<PlanTrack>, o: Option<u64>, m: Option<u64>)
    ensures
        restore_tracks(st, ts, o, m).0 == st.0,
        restore_tracks(st, ts, o, m).1 == st.1,
        restore_tracks(st, ts, o, m).4 == st.4,
        restore_tracks(st, ts, o, m).5 == st.5,
        grows(st, restore_tracks(st, ts, o, m)),
        forall|j: int| 0 <= j <= ts.len() ==> grows(#[trigger] restore_tracks(st, ts.take(j), o, m), restore_tracks(st, ts, o, m)),
    decreases ts.len(),
{
    if ts.len() == 0 {
        assert forall|j: int| 0 <= j <= ts.len() implies grows(#[trigger] restore_tracks(st, ts.take(j), o, m), restore_tracks(st, ts, o, m)) by {
            assert(ts.take(j) =~= ts);
        }
    } else {
        let d = ts.drop_last();
        lemma_tracks(st, d, o, m);
        assert forall|j: int| 0 <= j <= ts.len() implies grows(#[trigger] restore_tracks(st, ts.take(j), o, m), restore_tracks(st, ts, o, m)) by {
            if j == ts.len() {
                assert(ts.take(j) =~= ts);
            } else {
                assert(ts.take(j) =~= d.take(j));
            }
        }
    }
}

proof fn lemma_modes(st: Restoring, ms: Seq<PlanMode>, o: u64)
    ensures
        restore_modes(st, ms, o).0 == st.0,
        restore_modes(st, ms, o).4 == st.4,
        grows(st, restore_modes(st, ms, o)),
        forall|j: int| 0 <= j <= ms.len() ==> grows(#[trigger] restore_modes(st, ms.take(j), o), restore_modes(st, ms, o)),
    decreases ms.len(),
{
    if ms.len() == 0 {
        assert forall|j: int| 0 <= j <= ms.len() implies grows(#[trigger] restore_modes(st, ms.take(j), o), restore_modes(st, ms, o)) by {
            assert(ms.take(j) =~= ms);
        }
    } else {
        let d = ms.drop_last();
        lemma_modes(st, d, o);
        let before = restore_modes(st, d, o);
        let md = ms.last();
        let id = before.5 as u64;
        lemma_tracks(
            (before.0, before.1.push((id, o, md.name@)), before.2, before.3, before.4, before.5 + 1, before.6),
            md.tracks@,
            Some(o),
            Some(id),
        );
        assert forall|j: int| 0 <= j <= ms.len() implies grows(#[trigger] restore_modes(st, ms.take(j), o), restore_modes(st, ms, o)) by {
            if j == ms.len() {
                assert(ms.take(j) =~= ms);
            } else {
                assert(ms.take(j) =~= d.take(j));
            }
        }
    }
}

proof fn lemma_objects(st: Restoring, os: Seq<PlanObject>)
    ensures
        grows(st, restore_objects(st, os)),
        forall|j: int| 0 <= j <= os.len() ==> grows(#[trigger] restore_objects(st, os.take(j)), restore_objects(st, os)),
    decreases os.len(),
{
    if os.len() == 0 {
        assert forall|j: int| 0 <= j <= os.len() implies grows(#[trigger] restore_objects(st, os.take(j)), restore_objects(st, os)) by {
            assert(os.take(j) =~= os);
        }
    } else {
        let d = os.drop_last();
        lemma_objects(st, d);
        let before = restore_objects(st, d);
        let ob = os.last();
        let id = before.4 as u64;
        lemma_modes(
            (before.0.push((id, ob.name@, plan_source(ob))), before.1, before.2, before.3, before.4 + 1, before.5, before.6),
            ob.modes@,
            id,
        );
        assert forall|j: int| 0 <= j <= os.len() implies grows(#[trigger] restore_objects(st, os.take(j)), restore_objects(st, os)) by {
            if j == os.len() {
                assert(os.take(j) =~= os);
            } else {
                assert(os.take(j) =~= d.take(j));
            }
        }
    }
}

/// Adds the tracks under `o` and `m`, collecting the messages of those that
/// did not load.
fn restore_track_list(
    reg: &mut Registry,
    errors: &mut Vec<String>,
    ts: &Vec<PlanTrack>,
    o: Option<u64>,
    m: Option<u64>,
)
    requires
        old(reg).wf(),
        insert_error(old(reg).objects(), old(reg).modes(), o, m) is None,
        restore_tracks(state_of(*old(reg), str_views(old(errors)@)), ts@, o, m).6 <= u64::MAX,
    ensures
        final(reg).wf(),
        state_of(*final(reg), str_views(final(errors)@)) == restore_tracks(
            state_of(*old(reg), str_views(old(errors)@)),
            ts@,
            o,
            m,
        ),
{
    let ghost s0 = state_of(*reg, str_views(errors@));
    proof {
        lemma_tracks(s0, ts@, o, m);
        assert(ts@.take(0) =~= Seq::<PlanTrack>::empty());
    }
    let mut k: usize = 0;
    while k < ts.len()
        invariant
            k <= ts@.len(),
            reg.wf(),
            s0 == state_of(*old(reg), str_views(old(errors)@)),
            restore_tracks(s0, ts@, o, m).6 <= u64::MAX,
            forall|j: int| 0 <= j <= ts@.len() ==> grows(#[trigger] restore_tracks(s0, ts@.take(j), o, m), restore_tracks(s0, ts@, o, m)),
            insert_error(reg.objects(), reg.modes(), o, m) is None,
            state_of(*reg, str_views(errors@)) == restore_tracks(s0, ts@.take(k as int), o, m),
        decreases ts@.len() - k,
    {
        let t = &ts[k];
        proof {
            assert(ts@.take(k + 1).drop_last() =~= ts@.take(k as int));
            assert(ts@.take(k + 1).last() == ts@[k as int]);
            assert(grows(restore_tracks(s0, ts@.take(k + 1), o, m), restore_tracks(s0, ts@, o, m)));
        }
        let ghost before = state_of(*reg, str_views(errors@));
        match &t.loaded {
            Ok(()) => {
                let ghost old_tracks = reg.tracks();
                let ghost first = reg.next_ids().2;
                let r = reg.insert_tracks(vec![t.name.clone()], o, m);
                match r {
                    Ok(_) => {},
                    Err(_) => {},
                }
                proof {
                    assert(str_views(seq![t.name]) =~= seq![t.name@]);
                    assert(new_track_rows(seq![t.name@], first, o, m) =~= seq![(first, t.name@, o, m)]);
                    assert(reg.tracks() =~= old_tracks.push((first, t.name@, o, m)));
                }
            },
            Err(e) => {
                let ghost old_errs = errors@;
                errors.push(e.clone());
                assert(str_views(errors@) =~= str_views(old_errs).push(e@));
            },
        }
        k += 1;
    }
    assert(ts@.take(ts@.len() as int) =~= ts@);
}

/// Adds the failure modes of object `o`, each followed by its tracks.
fn restore_mode_list(reg: &mut Registry, errors: &mut Vec<String>, ms: &Vec<PlanMode>, o: u64)
    requires
        old(reg).wf(),
        has_object(old(reg).objects(), o),
        restore_modes(state_of(*old(reg), str_views(old(errors)@)), ms@, o).5 <= u64::MAX,
        restore_modes(state_of(*old(reg), str_views(old(errors)@)), ms@, o).6 <= u64::MAX,
    ensures
        final(reg).wf(),
        state_of(*final(reg), str_views(final(errors)@)) == restore_modes(
            state_of(*old(reg), str_views(old(errors)@)),
            ms@,
            o,
        ),
{
    let ghost s0 = state_of(*reg, str_views(errors@));
    proof {
        lemma_modes(s0, ms@, o);
        assert(ms@.take(0) =~= Seq::<PlanMode>::empty());
    }
    let mut j: usize = 0;
    while j < ms.len()
        invariant
            j <= ms@.len(),
            reg.wf(),
            s0 == state_of(*old(reg), str_views(old(errors)@)),
            restore_modes(s0, ms@, o).5 <= u64::MAX,
            restore_modes(s0, ms@, o).6 <= u64::MAX,
            forall|i: int| 0 <= i <= ms@.len() ==> grows(#[trigger] restore_modes(s0, ms@.take(i), o), restore_modes(s0, ms@, o)),
            has_object(reg.objects(), o),
            state_of(*reg, str_views(errors@)) == restore_modes(s0, ms@.take(j as int), o),
        decreases ms@.len() - j,
    {
        let md = &ms[j];
        let ghost cur = state_of(*reg, str_views(errors@));
        proof {
            assert(ms@.take(j + 1).drop_last() =~= ms@.take(j as int));
            assert(ms@.take(j + 1).last() == ms@[j as int]);
            let nid = cur.5 as u64;
            lemma_tracks(
                (cur.0, cur.1.push((nid, o, md.name@)), cur.2, cur.3, cur.4, cur.5 + 1, cur.6),
                md.tracks@,
                Some(o),
                Some(nid),
            );
            assert(grows(restore_modes(s0, ms@.take(j + 1), o), restore_modes(s0, ms@, o)));
        }
        let r = reg.add_mode(o, md.name.clone());
        let id = match r {
            Ok(id) => id,
            Err(_) => {
                proof {
                    assert(false);
                }
                return;
            },
        };
        proof {
            let ms1 = reg.modes();
            let last = ms1.len() - 1;
            assert(ms1[last] == (id, o, md.name@));
            assert(ms1[last].0 == id && ms1[last].1 == o);
            assert(has_mode(ms1, id));
            assert(mode_of_object(ms1, id, o));
        }
        restore_track_list(reg, errors, &md.tracks, Some(o), Some(id));
        j += 1;
    }
    assert(ms@.take(ms@.len() as int) =~= ms@);
}

/// Adds the objects, each followed by its failure modes and their tracks.
fn restore_object_list(reg: &mut Registry, errors: &mut Vec<String>, os: &Vec<PlanObject>)
    requires
        old(reg).wf(),
        restore_objects(state_of(*old(reg), str_views(old(errors)@)), os@).4 <= u64::MAX,
        restore_objects(state_of(*old(reg), str_views(old(errors)@)), os@).5 <= u64::MAX,
        restore_objects(state_of(*old(reg), str_views(old(errors)@)), os@).6 <= u64::MAX,
    ensures
        final(reg).wf(),
        state_of(*final(reg), str_views(final(errors)@)) == restore_objects(
            state_of(*old(reg), str_views(old(errors)@)),
            os@,
        ),
{
    let ghost s0 = state_of(*reg, str_views(errors@));
    proof {
        lemma_objects(s0, os@);
        assert(os@.take(0) =~= Seq::<PlanObject>::empty());
    }
    let mut i: usize = 0;
    while i < os.len()
        invariant
            i <= os@.len(),
            reg.wf(),
            s0 == state_of(*old(reg), str_views(old(errors)@)),
            restore_objects(s0, os@).4 <= u64::MAX,
            restore_objects(s0, os@).5 <= u64::MAX,
            restore_objects(s0, os@).6 <= u64::MAX,
            forall|k: int| 0 <= k <= os@.len() ==> grows(#[trigger] restore_objects(s0, os@.take(k)), restore_objects(s0, os@)),
            state_of(*reg, str_views(errors@)) == restore_objects(s0, os@.take(i as int)),
        decreases os@.len() - i,
    {
        let ob = &os[i];
        let ghost cur = state_of(*reg, str_views(errors@));
        let ghost nid = cur.4 as u64;
        let ghost after_create = (
            cur.0.push((nid, ob.name@, plan_source(*ob))),
            cur.1,
            cur.2,
            cur.3,
            cur.4 + 1,
            cur.5,
            cur.6,
        );
        proof {
            assert(os@.take(i + 1).drop_last() =~= os@.take(i as int));
            assert(os@.take(i + 1).last() == os@[i as int]);
            lemma_modes(after_create, ob.modes@, nid);
            assert(grows(restore_objects(s0, os@.take(i + 1)), restore_objects(s0, os@)));
        }
        let id = reg.create_object_empty(ob.name.clone());
        let ghost os1 = reg.objects();
        match &ob.source {
            Some(src) => {
                let r = reg.set_object_source(id, src.clone());
                proof {
                    let last = os1.len() - 1;
                    assert(os1[last].0 == id);
                    match r {
                        Ok(()) => {
                            let k = choose|k: int|
                                0 <= k < os1.len() && os1[k].0 == id && reg.objects() == os1.update(
                                    k,
                                    (id, os1[k].1, source_kind(src@)),
                                );
                            if k != last {
                                assert(object_id_seq(os1)[k] < object_id_seq(os1)[last]);
                            }
                            assert(reg.objects() =~= cur.0.push((nid, ob.name@, plan_source(*ob))));
                        },
                        Err(_) => {
                            assert(os1[last].0 == id);
                            assert(has_object(os1, id));
                        },
                    }
                }
            },
            None => {},
        }
        proof {
            assert(state_of(*reg, str_views(errors@)) == after_create);
            let last = reg.objects().len() - 1;
            assert(reg.objects()[last].0 == id);
            assert(has_object(reg.objects(), id));
        }
        restore_mode_list(reg, errors, &ob.modes, id);
        i += 1;
    }
    assert(os@.take(os@.len() as int) =~= os@);
}

/// Empties the registry and restores the plan into it: each object with the
/// next object id and the source it asks for (`files` when it names none),
/// each of its failure modes with the next mode id, and each of their
/// tracks whose file loaded with the next track id; then the unassigned
/// tracks that loaded. The result holds the messages of the tracks that did
/// not load, in plan order. Ids keep counting from where they were.
pub fn restore_plan(reg: &mut Registry, plan: &MissionPlan) -> (errors: Vec<String>)
    requires
        old(reg).wf(),
        restore_fits(*plan, old(reg).next_ids()),
    ensures
        final(reg).wf(),
        state_of(*final(reg), str_views(errors@)) == restored(*plan, old(reg).next_ids()),
{
    let ghost next = reg.next_ids();
    reg.clear();
    let mut errors: Vec<String> = Vec::new();
    let ghost start = state_of(*reg, str_views(errors@));
    proof {
        assert(start.0 =~= Seq::<ObjectRow>::empty());
        assert(start.1 =~= Seq::<ModeRow>::empty());
        assert(start.2 =~= Seq::<TrackRow>::empty());
        assert(start.3 =~= Seq::<Seq<char>>::empty());
        lemma_tracks(restore_objects(start, plan.objects@), plan.unassigned@, None, None);
    }
    restore_object_list(reg, &mut errors, &plan.objects);
    restore_track_list(reg, &mut errors, &plan.unassigned, None, None);
    errors
}

/// The object rows that objects `os` get, numbered from `first`.
pub open spec fn plan_object_rows(os: Seq<PlanObject>, first: int) -> Seq<ObjectRow> {
    Seq::new(os.len(), |i: int| ((first + i) as u64, os[i].name@, plan_source(os[i])))
}

proof fn lemma_object_rows(st: Restoring, os: Seq<PlanObject>)
    ensures
        restore_objects(st, os).0 == st.0 + plan_object_rows(os, st.4),
        restore_objects(st, os).4 == st.4 + os.len(),
    decreases os.len(),
{
    if os.len() == 0 {
        assert(plan_object_rows(os, st.4) =~= Seq::<ObjectRow>::empty());
        assert(st.0 + plan_object_rows(os, st.4) =~= st.0);
    } else {
        let d = os.drop_last();
        lemma_object_rows(st, d);
        let before = restore_objects(st, d);
        let ob = os.last();
        let id = before.4 as u64;
        lemma_modes(
            (before.0.push((id, ob.name@, plan_source(ob))), before.1, before.2, before.3, before.4 + 1, before.5, before.6),
            ob.modes@,
            id,
        );
        assert(plan_object_rows(os, st.4) =~= plan_object_rows(d, st.4).push(((st.4 + d.len()) as u64, ob.name@, plan_source(ob))));
        assert(st.0 + plan_object_rows(os, st.4) =~= (st.0 + plan_object_rows(d, st.4)).push((id, ob.name@, plan_source(ob))));
    }
}

/// Restoring a plan leaves exactly its objects, in plan order, numbered
/// from the next object id, each with the source it asks for.
pub proof fn law_restored_objects_follow_plan(plan: MissionPlan, next: (u64, u64, u64))
    ensures
        restored(plan, next).0 == plan_object_rows(plan.objects@, next.0 as int),
{
    let start: Restoring = (
        Seq::empty(),
        Seq::empty(),
        Seq::empty(),
        Seq::empty(),
        next.0 as int,
        next.1 as int,
        next.2 as int,
    );
    lemma_object_rows(start, plan.objects@);
    lemma_tracks(restore_objects(start, plan.objects@), plan.unassigned@, None, None);
    assert(start.0 + plan_object_rows(plan.objects@, next.0 as int) =~= plan_object_rows(plan.objects@, next.0 as int));
}

/// Every track file of these tracks loaded.
pub open spec fn tracks_loaded(ts: Seq<PlanTrack>) -> bool {
    forall|k: int| 0 <= k < ts.len() ==> (#[trigger] ts[k]).loaded is Ok
}

/// Every track file of these failure modes loaded.
pub open spec fn modes_loaded(ms: Seq<PlanMode>) -> bool {
    forall|j: int| 0 <= j < ms.len() ==> tracks_loaded((#[trigger] ms[j]).tracks@)
}

/// Every track file the plan names loaded.
pub open spec fn plan_loaded(plan: MissionPlan) -> bool {
    &&& forall|i: int| 0 <= i < plan.objects@.len() ==> modes_loaded((#[trigger] plan.objects@[i]).modes@)
    &&& tracks_loaded(plan.unassigned@)
}

proof fn lemma_tracks_quiet(st: Restoring, ts: Seq<PlanTrack>, o: Option<u64>, m: Option<u64>)
    requires
        tracks_loaded(ts),
    ensures
        restore_tracks(st, ts, o, m).3 == st.3,
    decreases ts.len(),
{
    if ts.len() > 0 {
        let d = ts.drop_last();
        assert(tracks_loaded(d)) by {
            assert forall|k: int| 0 <= k < d.len() implies (#[trigger] d[k]).loaded is Ok by {
                assert(d[k] == ts[k]);
            }
        }
        lemma_tracks_quiet(st, d, o, m);
        assert(ts.last() == ts[ts.len() - 1]);
    }
}

proof fn lemma_modes_quiet(st: Restoring, ms: Seq<PlanMode>, o: u64)
    requires
        modes_loaded(ms),
    ensures
        restore_modes(st, ms, o).3 == st.3,
    decreases ms.len(),
{
    if ms.len() > 0 {
        let d = ms.drop_last();
        assert(modes_loaded(d)) by {
            assert forall|j: int| 0 <= j < d.len() implies tracks_loaded((#[trigger] d[j]).tracks@) by {
                assert(d[j] == ms[j]);
            }
        }
        lemma_modes_quiet(st, d, o);
        let before = restore_modes(st, d, o);
        let md = ms.last();
        assert(md == ms[ms.len() - 1]);
        let id = before.5 as u64;
        lemma_tracks_quiet(
            (before.0, before.1.push((id, o, md.name@)), before.2, before.3, before.4, before.5 + 1, before.6),
            md.tracks@,
            Some(o),
            Some(id),
        );
    }
}

proof fn lemma_objects_quiet(st: Restoring, os: Seq<PlanObject>)
    requires
        forall|i: int| 0 <= i < os.len() ==> modes_loaded((#[trigger] os[i]).modes@),
    ensures
        restore_objects(st, os).3 == st.3,
    decreases os.len(),
{
    if os.len() > 0 {
        let d = os.drop_last();
        assert forall|i: int| 0 <= i < d.len() implies modes_loaded((#[trigger] d[i]).modes@) by {
            assert(d[i] == os[i]);
        }
        lemma_objects_quiet(st, d);
        let before = restore_objects(st, d);
        let ob = os.last();
        assert(ob == os[os.len() - 1]);
        let id = before.4 as u64;
        lemma_modes_quiet(
            (before.0.push((id, ob.name@, plan_source(ob))), before.1, before.2, before.3, before.4 + 1, before.5, before.6),
            ob.modes@,
            id,
        );
    }
}

/// A plan whose track files all loaded is restored without a message.
pub proof fn law_all_loaded_no_messages(plan: MissionPlan, next: (u64, u64, u64))
    requires
        plan_loaded(plan),
    ensures
        restored(plan, next).3.len() == 0,
{
    let start: Restoring = (
        Seq::empty(),
        Seq::empty(),
        Seq::empty(),
        Seq::empty(),
        next.0 as int,
        next.1 as int,
        next.2 as int,
    );
    lemma_objects_quiet(start, plan.objects@);
    lemma_tracks_quiet(restore_objects(start, plan.objects@), plan.unassigned@, None, None);
}

/// Reopening what a mission file records of a registry gives back its
/// objects in table order with their names and their sources (read as
/// source kinds), renumbered from the next object id, and no message.
pub proof fn law_recorded_plan_restores_objects(
    plan: MissionPlan,
    os: Seq<ObjectRow>,
    ms: Seq<ModeRow>,
    ts: Seq<TrackRow>,
    next: (u64, u64, u64),
)
    requires
        plan_records(plan, os, ms, ts),
    ensures
        restored(plan, next).0 == Seq::new(os.len(), |i: int| ((next.0 + i) as u64, os[i].1, source_kind(os[i].2))),
        restored(plan, next).3.len() == 0,
{
    law_restored_objects_follow_plan(plan, next);
    assert forall|i: int| 0 <= i < plan.objects@.len() implies modes_loaded((#[trigger] plan.objects@[i]).modes@) by {
        assert(object_planned(plan.objects@[i], os[i], ms, ts));
        let ob = plan.objects@[i];
        assert forall|j: int| 0 <= j < ob.modes@.len() implies tracks_loaded((#[trigger] ob.modes@[j]).tracks@) by {
            assert(mode_planned(ob.modes@[j], modes_of(ms, os[i].0)[j], ts));
            assert forall|k: int| 0 <= k < ob.modes@[j].tracks@.len() implies (#[trigger] ob.modes@[j].tracks@[k]).loaded is Ok by {
            }
        }
    }
    assert forall|k: int| 0 <= k < plan.unassigned@.len() implies (#[trigger] plan.unassigned@[k]).loaded is Ok by {
    }
    law_all_loaded_no_messages(plan, next);
    assert forall|i: int| 0 <= i < os.len() implies #[trigger] plan_object_rows(plan.objects@, next.0 as int)[i] == (
        (next.0 + i) as u64,
        os[i].1,
        source_kind(os[i].2),
    ) by {
        assert(object_planned(plan.objects@[i], os[i], ms, ts));
    }
    assert(plan_object_rows(plan.objects@, next.0 as int) =~= Seq::new(
        os.len(),
        |i: int| ((next.0 + i) as u64, os[i].1, source_kind(os[i].2)),
    ));
}

/// A failure mode as a mission shows it: its name and the names of its
/// tracks, in order.
pub type ModeOutline = (Seq<char>, Seq<Seq<char>>);

/// An object as a mission shows it: its name, its source and its failure
/// modes, in order.
pub type ObjectOutline = (Seq<char>, Seq<char>, Seq<ModeOutline>);

/// The failure modes of object `o`, in table order, with their tracks.
pub open spec fn mode_outline(ms: Seq<ModeRow>, ts: Seq<TrackRow>, o: u64) -> Seq<ModeOutline> {
    let mo = modes_of(ms, o);
    Seq::new(mo.len(), |j: int| (mo[j].2, mode_track_names(ts, mo[j].0)))
}

/// What the tables show, ids aside: each object in table order with its
/// failure modes and their tracks, then the tracks that are not assigned.
pub open spec fn tables_outline(os: Seq<ObjectRow>, ms: Seq<ModeRow>, ts: Seq<TrackRow>) -> (Seq<ObjectOutline>, Seq<Seq<char>>) {
    (Seq::new(os.len(), |i: int| (os[i].1, os[i].2, mode_outline(ms, ts, os[i].0))), loose_track_names(ts))
}

/// An outline with each source read as a source kind.
pub open spec fn with_kinds(out: (Seq<ObjectOutline>, Seq<Seq<char>>)) -> (Seq<ObjectOutline>, Seq<Seq<char>>) {
    (Seq::new(out.0.len(), |i: int| (out.0[i].0, source_kind(out.0[i].1), out.0[i].2)), out.1)
}

/// Names of the tracks whose files loaded, in order.
pub open spec fn loaded_names(ts: Seq<PlanTrack>) -> Seq<Seq<char>>
    decreases ts.len(),
{
    if ts.len() == 0 {
        Seq::empty()
    } else {
        let w = loaded_names(ts.drop_last());
        if ts.last().loaded is Ok {
            w.push(ts.last().name@)
        } else {
            w
        }
    }
}

/// Failure modes of a plan as they come back: names and loaded tracks.
pub open spec fn plan_mode_outline(ms: Seq<PlanMode>) -> Seq<ModeOutline> {
    Seq::new(ms.len(), |j: int| (ms[j].name@, loaded_names(ms[j].tracks@)))
}

/// Every row lies below the next ids: objects below the next object id,
/// failure modes (and their objects) below the next mode (object) id, and
/// the failure mode of every track below the next mode id.
pub open spec fn bounded(st: Restoring) -> bool {
    &&& 0 <= st.4 && 0 <= st.5
    &&& forall|k: int| 0 <= k < st.0.len() ==> (#[trigger] st.0[k]).0 < st.4
    &&& forall|k: int| 0 <= k < st.1.len() ==> (#[trigger] st.1[k]).0 < st.5 && st.1[k].1 < st.4
    &&& forall|k: int| 0 <= k < st.2.len() ==> ((#[trigger] st.2[k]).3 matches Some(x) ==> x < st.5)
}

proof fn lemma_named_loaded(ts: Seq<PlanTrack>, names: Seq<Seq<char>>)
    requires
        tracks_named(ts, names),
    ensures
        loaded_names(ts) == names,
    decreases ts.len(),
{
    if ts.len() > 0 {
        let d = ts.drop_last();
        assert(tracks_named(d, names.drop_last())) by {
            assert forall|k: int| 0 <= k < d.len() implies (#[trigger] d[k]).name@ == names.drop_last()[k]
                && d[k].loaded is Ok by {
                assert(d[k] == ts[k]);
            }
        }
        lemma_named_loaded(d, names.drop_last());
        assert(ts.last() == ts[ts.len() - 1]);
        assert(names =~= names.drop_last().push(names.last()));
    }
}

proof fn lemma_no_tracks_of(ts: Seq<TrackRow>, x: u64, b: int)
    requires
        forall|k: int| 0 <= k < ts.len() ==> ((#[trigger] ts[k]).3 matches Some(y) ==> y < b),
        b <= x,
    ensures
        mode_track_names(ts, x).len() == 0,
    decreases ts.len(),
{
    if ts.len() > 0 {
        let d = ts.drop_last();
        assert forall|k: int| 0 <= k < d.len() implies ((#[trigger] d[k]).3 matches Some(y) ==> y < b) by {
            assert(d[k] == ts[k]);
        }
        lemma_no_tracks_of(d, x, b);
        assert(ts.last() == ts[ts.len() - 1]);
    }
}

proof fn lemma_modes_of_rows(ms: Seq<ModeRow>, o: u64)
    ensures
        forall|j: int| 0 <= j < modes_of(ms, o).len() ==> ms.contains(#[trigger] modes_of(ms, o)[j]),
        forall|j: int| 0 <= j < modes_of(ms, o).len() ==> (#[trigger] modes_of(ms, o)[j]).1 == o,
    decreases ms.len(),
{
    if ms.len() > 0 {
        let d = ms.drop_last();
        lemma_modes_of_rows(d, o);
        assert forall|j: int| 0 <= j < modes_of(ms, o).len() implies ms.contains(#[trigger] modes_of(ms, o)[j]) by {
            if j < modes_of(d, o).len() {
                let w = modes_of(d, o)[j];
                let k = choose|k: int| 0 <= k < d.len() && d[k] == w;
                assert(ms[k] == d[k]);
            } else {
                assert(ms[ms.len() - 1] == ms.last());
            }
        }
    }
}

proof fn lemma_tracks_outline(st: Restoring, tp: Seq<PlanTrack>, o: Option<u64>, m: Option<u64>)
    requires
        (o is Some) == (m is Some),
        bounded(st),
        m matches Some(x) ==> x < st.5,
    ensures
        bounded(restore_tracks(st, tp, o, m)),
        forall|x: u64| #[trigger] mode_track_names(restore_tracks(st, tp, o, m).2, x) == if m == Some(x) {
            mode_track_names(st.2, x) + loaded_names(tp)
        } else {
            mode_track_names(st.2, x)
        },
        loose_track_names(restore_tracks(st, tp, o, m).2) == if m is None {
            loose_track_names(st.2) + loaded_names(tp)
        } else {
            loose_track_names(st.2)
        },
    decreases tp.len(),
{
    lemma_tracks(st, tp, o, m);
    if tp.len() == 0 {
        assert forall|x: u64| #[trigger] mode_track_names(restore_tracks(st, tp, o, m).2, x) == if m == Some(x) {
            mode_track_names(st.2, x) + loaded_names(tp)
        } else {
            mode_track_names(st.2, x)
        } by {
            assert(mode_track_names(st.2, x) + Seq::<Seq<char>>::empty() =~= mode_track_names(st.2, x));
        }
        assert(loose_track_names(st.2) + Seq::<Seq<char>>::empty() =~= loose_track_names(st.2));
    } else {
        let d = tp.drop_last();
        lemma_tracks_outline(st, d, o, m);
        lemma_tracks(st, d, o, m);
        let rd = restore_tracks(st, d, o, m);
        let r = restore_tracks(st, tp, o, m);
        let t = tp.last();
        match t.loaded {
            Ok(()) => {
                let row = (rd.6 as u64, t.name@, o, m);
                assert(r.2 == rd.2.push(row));
                assert(r.2.drop_last() =~= rd.2);
                assert(r.2.last() == row);
                assert forall|k: int| 0 <= k < r.2.len() implies ((#[trigger] r.2[k]).3 matches Some(y) ==> y < r.5) by {
                    if k < rd.2.len() {
                        assert(r.2[k] == rd.2[k]);
                    }
                }
                assert forall|x: u64| #[trigger] mode_track_names(r.2, x) == if m == Some(x) {
                    mode_track_names(st.2, x) + loaded_names(tp)
                } else {
                    mode_track_names(st.2, x)
                } by {
                    assert(mode_track_names(rd.2, x) == if m == Some(x) {
                        mode_track_names(st.2, x) + loaded_names(d)
                    } else {
                        mode_track_names(st.2, x)
                    });
                    assert(mode_track_names(r.2, x) == if row.3 == Some(x) {
                        mode_track_names(rd.2, x).push(row.1)
                    } else {
                        mode_track_names(rd.2, x)
                    });
                    assert(tp.drop_last() == d);
                    assert(loaded_names(tp) == loaded_names(d).push(t.name@));
                    if m == Some(x) {
                        assert(mode_track_names(st.2, x) + loaded_names(tp) =~= (mode_track_names(st.2, x)
                            + loaded_names(d)).push(t.name@));
                    }
                }
                assert(tp.drop_last() == d);
                assert(loaded_names(tp) == loaded_names(d).push(t.name@));
                if m is None {
                    assert(loose_track_names(st.2) + loaded_names(tp) =~= (loose_track_names(st.2)
                        + loaded_names(d)).push(t.name@));
                }
            },
            Err(_) => {
                assert(r.2 == rd.2);
                assert(tp.drop_last() == d);
                assert(loaded_names(tp) == loaded_names(d));
            },
        }
    }
}

proof fn lemma_modes_outline(st: Restoring, mp: Seq<PlanMode>, oid: u64)
    requires
        bounded(st),
        oid < st.4,
        restore_modes(st, mp, oid).5 <= u64::MAX,
    ensures
        bounded(restore_modes(st, mp, oid)),
        restore_modes(st, mp, oid).5 == st.5 + mp.len(),
        forall|o: u64| o != oid ==> #[trigger] modes_of(restore_modes(st, mp, oid).1, o) == modes_of(st.1, o),
        modes_of(restore_modes(st, mp, oid).1, oid) == modes_of(st.1, oid) + Seq::new(
            mp.len(),
            |j: int| ((st.5 + j) as u64, oid, mp[j].name@),
        ),
        forall|x: u64| x < st.5 ==> #[trigger] mode_track_names(restore_modes(st, mp, oid).2, x) == mode_track_names(st.2, x),
        forall|j: int| 0 <= j < mp.len() ==> #[trigger] mode_track_names(restore_modes(st, mp, oid).2, (st.5 + j) as u64)
            == loaded_names(mp[j].tracks@),
        loose_track_names(restore_modes(st, mp, oid).2) == loose_track_names(st.2),
    decreases mp.len(),
{
    lemma_modes(st, mp, oid);
    if mp.len() == 0 {
        assert(modes_of(st.1, oid) + Seq::new(mp.len(), |j: int| ((st.5 + j) as u64, oid, mp[j].name@)) =~= modes_of(st.1, oid));
    } else {
        let d = mp.drop_last();
        assert(mp.take(d.len() as int) =~= d);
        lemma_modes(st, d, oid);
        lemma_modes_outline(st, d, oid);
        let rd = restore_modes(st, d, oid);
        let md = mp.last();
        let id = rd.5 as u64;
        let s1 = (rd.0, rd.1.push((id, oid, md.name@)), rd.2, rd.3, rd.4, rd.5 + 1, rd.6);
        lemma_tracks(s1, md.tracks@, Some(oid), Some(id));
        let r = restore_modes(st, mp, oid);
        assert(r == restore_tracks(s1, md.tracks@, Some(oid), Some(id)));
        assert(id == st.5 + d.len());
        assert(bounded(s1)) by {
            assert forall|k: int| 0 <= k < s1.1.len() implies (#[trigger] s1.1[k]).0 < s1.5 && s1.1[k].1 < s1.4 by {
                if k < rd.1.len() {
                    assert(s1.1[k] == rd.1[k]);
                }
            }
        }
        lemma_tracks_outline(s1, md.tracks@, Some(oid), Some(id));
        assert(s1.1.drop_last() =~= rd.1);
        assert(s1.1.last() == (id, oid, md.name@));
        assert forall|o: u64| o != oid implies #[trigger] modes_of(r.1, o) == modes_of(st.1, o) by {
            assert(modes_of(rd.1, o) == modes_of(st.1, o));
        }
        assert(modes_of(r.1, oid) =~= modes_of(st.1, oid) + Seq::new(
            mp.len(),
            |j: int| ((st.5 + j) as u64, oid, mp[j].name@),
        ));
        assert forall|x: u64| x < st.5 implies #[trigger] mode_track_names(r.2, x) == mode_track_names(st.2, x) by {
            assert(mode_track_names(rd.2, x) == mode_track_names(st.2, x));
        }
        lemma_no_tracks_of(rd.2, id, rd.5);
        assert forall|j: int| 0 <= j < mp.len() implies #[trigger] mode_track_names(r.2, (st.5 + j) as u64)
            == loaded_names(mp[j].tracks@) by {
            if j < d.len() {
                assert(d[j] == mp[j]);
                assert(mode_track_names(rd.2, (st.5 + j) as u64) == loaded_names(d[j].tracks@));
            } else {
                assert(mp[j] == md);
                assert(mode_track_names(rd.2, id) =~= Seq::<Seq<char>>::empty());
                assert(Seq::<Seq<char>>::empty() + loaded_names(md.tracks@) =~= loaded_names(md.tracks@));
            }
        }
    }
}

proof fn lemma_objects_outline(st: Restoring, op: Seq<PlanObject>)
    requires
        bounded(st),
        restore_objects(st, op).4 <= u64::MAX,
        restore_objects(st, op).5 <= u64::MAX,
    ensures
        bounded(restore_objects(st, op)),
        restore_objects(st, op).4 == st.4 + op.len(),
        forall|o: u64| o < st.4 ==> #[trigger] modes_of(restore_objects(st, op).1, o) == modes_of(st.1, o),
        forall|x: u64| x < st.5 ==> #[trigger] mode_track_names(restore_objects(st, op).2, x) == mode_track_names(st.2, x),
        loose_track_names(restore_objects(st, op).2) == loose_track_names(st.2),
        forall|i: int| 0 <= i < op.len() ==> #[trigger] mode_outline(
            restore_objects(st, op).1,
            restore_objects(st, op).2,
            (st.4 + i) as u64,
        ) == plan_mode_outline(op[i].modes@),
    decreases op.len(),
{
    lemma_object_rows(st, op);
    lemma_objects(st, op);
    if op.len() > 0 {
        let d = op.drop_last();
        assert(op.take(d.len() as int) =~= d);
        lemma_objects(st, d);
        lemma_object_rows(st, d);
        lemma_objects_outline(st, d);
        let rd = restore_objects(st, d);
        let ob = op.last();
        let oid = rd.4 as u64;
        let s1 = (rd.0.push((oid, ob.name@, plan_source(ob))), rd.1, rd.2, rd.3, rd.4 + 1, rd.5, rd.6);
        let r = restore_objects(st, op);
        assert(r == restore_modes(s1, ob.modes@, oid));
        assert(bounded(s1)) by {
            assert forall|k: int| 0 <= k < s1.0.len() implies (#[trigger] s1.0[k]).0 < s1.4 by {
                if k < rd.0.len() {
                    assert(s1.0[k] == rd.0[k]);
                }
            }
        }
        lemma_modes_outline(s1, ob.modes@, oid);
        assert(oid == st.4 + d.len());
        assert forall|o: u64| o < st.4 implies #[trigger] modes_of(r.1, o) == modes_of(st.1, o) by {
            assert(modes_of(rd.1, o) == modes_of(st.1, o));
        }
        assert forall|x: u64| x < st.5 implies #[trigger] mode_track_names(r.2, x) == mode_track_names(st.2, x) by {
            assert(mode_track_names(rd.2, x) == mode_track_names(st.2, x));
        }
        assert forall|i: int| 0 <= i < op.len() implies #[trigger] mode_outline(r.1, r.2, (st.4 + i) as u64)
            == plan_mode_outline(op[i].modes@) by {
            let o = (st.4 + i) as u64;
            if i < d.len() {
                assert(d[i] == op[i]);
                assert(mode_outline(rd.1, rd.2, o) == plan_mode_outline(d[i].modes@));
                assert(modes_of(r.1, o) == modes_of(rd.1, o));
                lemma_modes_of_rows(rd.1, o);
                let mo = modes_of(rd.1, o);
                assert forall|j: int| 0 <= j < mo.len() implies mode_track_names(r.2, (#[trigger] mo[j]).0)
                    == mode_track_names(rd.2, mo[j].0) by {
                    assert(rd.1.contains(mo[j]));
                    let k = choose|k: int| 0 <= k < rd.1.len() && rd.1[k] == mo[j];
                    assert(rd.1[k].0 < rd.5);
                }
                assert(mode_outline(r.1, r.2, o) =~= mode_outline(rd.1, rd.2, o));
            } else {
                assert(op[i] == ob);
                assert(o == oid);
                lemma_modes_of_rows(rd.1, oid);
                assert(modes_of(rd.1, oid).len() == 0) by {
                    if modes_of(rd.1, oid).len() > 0 {
                        let w = modes_of(rd.1, oid)[0];
                        assert(rd.1.contains(w));
                        let k = choose|k: int| 0 <= k < rd.1.len() && rd.1[k] == w;
                        assert(rd.1[k].1 < rd.4);
                    }
                }
                let n = Seq::new(ob.modes@.len(), |j: int| ((rd.5 + j) as u64, oid, ob.modes@[j].name@));
                assert(modes_of(r.1, oid) =~= n);
                assert forall|j: int| 0 <= j < n.len() implies mode_track_names(r.2, (#[trigger] n[j]).0)
                    == loaded_names(ob.modes@[j].tracks@) by {
                    assert(mode_track_names(r.2, (s1.5 + j) as u64) == loaded_names(ob.modes@[j].tracks@));
                }
                assert(mode_outline(r.1, r.2, oid) =~= plan_mode_outline(ob.modes@));
            }
        }
    }
}

/// Reopening what a mission file records of the tables gives back what
/// they show, ids aside: every object in order with its name and its
/// source (read as a source kind), its failure modes in order with their
/// names, the tracks of each in order, and the tracks that are not
/// assigned; nothing of what was there before stays, and no message comes.
pub proof fn law_mission_round_trip(
    plan: MissionPlan,
    os: Seq<ObjectRow>,
    ms: Seq<ModeRow>,
    ts: Seq<TrackRow>,
    next: (u64, u64, u64),
)
    requires
        plan_records(plan, os, ms, ts),
        restore_fits(plan, next),
    ensures
        tables_outline(restored(plan, next).0, restored(plan, next).1, restored(plan, next).2)
            == with_kinds(tables_outline(os, ms, ts)),
        restored(plan, next).3.len() == 0,
{
    law_recorded_plan_restores_objects(plan, os, ms, ts, next);
    let start: Restoring = (
        Seq::empty(),
        Seq::empty(),
        Seq::empty(),
        Seq::empty(),
        next.0 as int,
        next.1 as int,
        next.2 as int,
    );
    let ro = restore_objects(start, plan.objects@);
    let r = restored(plan, next);
    lemma_tracks(ro, plan.unassigned@, None, None);
    lemma_objects_outline(start, plan.objects@);
    lemma_tracks_outline(ro, plan.unassigned@, None, None);
    assert(loose_track_names(start.2) =~= Seq::<Seq<char>>::empty());
    lemma_named_loaded(plan.unassigned@, loose_track_names(ts));
    assert(r.2 == restore_tracks(ro, plan.unassigned@, None, None).2);
    assert(loose_track_names(r.2) =~= loose_track_names(ts));
    let lhs = tables_outline(r.0, r.1, r.2);
    let rhs = with_kinds(tables_outline(os, ms, ts));
    assert forall|i: int| 0 <= i < os.len() implies #[trigger] lhs.0[i] == rhs.0[i] by {
        let ob = plan.objects@[i];
        assert(object_planned(ob, os[i], ms, ts));
        let o = (next.0 + i) as u64;
        assert(r.0[i] == (o, ob.name@, plan_source(ob)));
        assert(mode_outline(ro.1, ro.2, (start.4 + i) as u64) == plan_mode_outline(ob.modes@));
        assert(mode_outline(r.1, r.2, o) =~= mode_outline(ro.1, ro.2, o));
        let mo = modes_of(ms, os[i].0);
        assert forall|j: int| 0 <= j < mo.len() implies #[trigger] plan_mode_outline(ob.modes@)[j] == mode_outline(ms, ts, os[i].0)[j] by {
            assert(mode_planned(ob.modes@[j], mo[j], ts));
            lemma_named_loaded(ob.modes@[j].tracks@, mode_track_names(ts, mo[j].0));
        }
        assert(plan_mode_outline(ob.modes@) =~= mode_outline(ms, ts, os[i].0));
    }
    assert(lhs.0 =~= rhs.0);
}

} // verus!
