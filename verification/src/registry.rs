//! The relations the store keeps between risk objects, their failure modes
//! and the loaded tracks. Ids grow along each table, every failure mode
//! belongs to an existing object, and every assigned track names a failure
//! mode of the object it is assigned to. The numbers attached to these
//! entries (probabilities, weights, geometry) are kept beside them, by id.

use vstd::prelude::*;
use crate::risk::{default_source, RiskObject};
use crate::restore::{
    loose_track_names, mode_planned, mode_track_names, modes_of, object_planned, plan_records, tracks_named,
    MissionPlan, PlanMode, PlanObject, PlanTrack,
};
use crate::text::{chars_of, eq_chars, lower_chars, lower_seq};

verus! {

/// A failure mode of a risk object.
#[derive(Debug, Clone)]
pub struct FailureMode {
    pub id: u64,
    pub object_id: u64,
    pub name: String,
}

/// A loaded track and where it is assigned (object and failure mode, or
/// neither).
#[derive(Debug, Clone)]
pub struct TrackLink {
    pub id: u64,
    pub name: String,
    pub object_id: Option<u64>,
    pub failure_mode_id: Option<u64>,
}

/// An object as values: id, name, source.
pub type ObjectRow = (u64, Seq<char>, Seq<char>);

/// A failure mode as values: id, object, name.
pub type ModeRow = (u64, u64, Seq<char>);

/// A track as values: id, name, object, failure mode.
pub type TrackRow = (u64, Seq<char>, Option<u64>, Option<u64>);

pub open spec fn object_rows(s: Seq<RiskObject>) -> Seq<ObjectRow> {
    Seq::new(s.len(), |i: int| (s[i].id, s[i].name@, s[i].source@))
}

pub open spec fn mode_rows(s: Seq<FailureMode>) -> Seq<ModeRow> {
    Seq::new(s.len(), |i: int| (s[i].id, s[i].object_id, s[i].name@))
}

pub open spec fn track_rows(s: Seq<TrackLink>) -> Seq<TrackRow> {
    Seq::new(s.len(), |i: int| (s[i].id, s[i].name@, s[i].object_id, s[i].failure_mode_id))
}

/// Ids strictly increase along a table, and all lie below `next`.
pub open spec fn ids_ordered(ids: Seq<u64>, next: u64) -> bool {
    &&& forall|i: int, j: int| 0 <= i < j < ids.len() ==> ids[i] < ids[j]
    &&& forall|i: int| 0 <= i < ids.len() ==> ids[i] < next
}

pub open spec fn object_id_seq(os: Seq<ObjectRow>) -> Seq<u64> {
    Seq::new(os.len(), |i: int| os[i].0)
}

pub open spec fn mode_id_seq(ms: Seq<ModeRow>) -> Seq<u64> {
    Seq::new(ms.len(), |i: int| ms[i].0)
}

pub open spec fn track_id_seq(ts: Seq<TrackRow>) -> Seq<u64> {
    Seq::new(ts.len(), |i: int| ts[i].0)
}

/// Whether object `id` exists.
pub open spec fn has_object(os: Seq<ObjectRow>, id: u64) -> bool {
    exists|i: int| 0 <= i < os.len() && #[trigger] os[i].0 == id
}

/// Whether failure mode `m` exists and belongs to object `o`.
pub open spec fn mode_of_object(ms: Seq<ModeRow>, m: u64, o: u64) -> bool {
    exists|k: int| 0 <= k < ms.len() && #[trigger] ms[k].0 == m && ms[k].1 == o
}

/// Whether failure mode `m` exists.
pub open spec fn has_mode(ms: Seq<ModeRow>, m: u64) -> bool {
    exists|k: int| 0 <= k < ms.len() && #[trigger] ms[k].0 == m
}

/// An assignment names no object and no mode, or an object and one of its
/// modes.
pub open spec fn link_ok(ms: Seq<ModeRow>, o: Option<u64>, m: Option<u64>) -> bool {
    match (o, m) {
        (None, None) => true,
        (Some(o), Some(m)) => mode_of_object(ms, m, o),
        _ => false,
    }
}

/// A track is unassigned, or assigned to an object and one of its modes.
pub open spec fn track_linked(ms: Seq<ModeRow>, t: TrackRow) -> bool {
    link_ok(ms, t.2, t.3)
}

/// The relations hold: ids ordered in each table, each mode's object
/// exists, each track is unassigned or linked to a mode of its object.
pub open spec fn tables_wf(
    os: Seq<ObjectRow>,
    ms: Seq<ModeRow>,
    ts: Seq<TrackRow>,
    next_object: u64,
    next_mode: u64,
    next_track: u64,
) -> bool {
    &&& ids_ordered(object_id_seq(os), next_object)
    &&& ids_ordered(mode_id_seq(ms), next_mode)
    &&& ids_ordered(track_id_seq(ts), next_track)
    &&& forall|k: int| 0 <= k < ms.len() ==> has_object(os, #[trigger] ms[k].1)
    &&& forall|i: int| 0 <= i < ts.len() ==> track_linked(ms, #[trigger] ts[i])
}

/// Why tracks cannot go to failure mode `m` of object `o`, if they cannot.
pub open spec fn assignment_error(os: Seq<ObjectRow>, ms: Seq<ModeRow>, o: u64, m: u64) -> Option<Seq<char>> {
    if !has_mode(ms, m) {
        Some("unknown mode"@)
    } else if !mode_of_object(ms, m, o) {
        Some("mode does not belong to that object"@)
    } else if !has_object(os, o) {
        Some("unknown object"@)
    } else {
        None
    }
}

/// The tracks after those with ids in `ids` are set to `link`.
pub open spec fn relinked(ts: Seq<TrackRow>, ids: Seq<u64>, link: (Option<u64>, Option<u64>)) -> Seq<TrackRow> {
    Seq::new(
        ts.len(),
        |i: int|
            if ids.contains(ts[i].0) {
                (ts[i].0, ts[i].1, link.0, link.1)
            } else {
                ts[i]
            },
    )
}

/// Which tracks go: those with an id listed, those of an object, those of
/// a failure mode.
pub type TrackCut = (Seq<u64>, Option<u64>, Option<u64>);

pub open spec fn track_cut(t: TrackRow, c: TrackCut) -> bool {
    c.0.contains(t.0) || (c.1 is Some && t.2 == c.1) || (c.2 is Some && t.3 == c.2)
}

/// The tracks that stay, in order.
pub open spec fn tracks_kept(ts: Seq<TrackRow>, c: TrackCut) -> Seq<TrackRow>
    decreases ts.len(),
{
    if ts.len() == 0 {
        Seq::empty()
    } else {
        let w = tracks_kept(ts.drop_last(), c);
        if track_cut(ts.last(), c) {
            w
        } else {
            w.push(ts.last())
        }
    }
}

/// The ids of the tracks that go, in order.
pub open spec fn tracks_cut_ids(ts: Seq<TrackRow>, c: TrackCut) -> Seq<u64>
    decreases ts.len(),
{
    if ts.len() == 0 {
        Seq::empty()
    } else {
        let w = tracks_cut_ids(ts.drop_last(), c);
        if track_cut(ts.last(), c) {
            w.push(ts.last().0)
        } else {
            w
        }
    }
}

/// Which failure modes go: the one with an id, those of an object.
pub type ModeCut = (Option<u64>, Option<u64>);

pub open spec fn mode_cut(m: ModeRow, c: ModeCut) -> bool {
    c.0 == Some(m.0) || c.1 == Some(m.1)
}

/// The failure modes that stay, in order.
pub open spec fn modes_kept(ms: Seq<ModeRow>, c: ModeCut) -> Seq<ModeRow>
    decreases ms.len(),
{
    if ms.len() == 0 {
        Seq::empty()
    } else {
        let w = modes_kept(ms.drop_last(), c);
        if mode_cut(ms.last(), c) {
            w
        } else {
            w.push(ms.last())
        }
    }
}

/// The objects that stay when object `id` goes, in order.
pub open spec fn objects_kept(os: Seq<ObjectRow>, id: u64) -> Seq<ObjectRow>
    decreases os.len(),
{
    if os.len() == 0 {
        Seq::empty()
    } else {
        let w = objects_kept(os.drop_last(), id);
        if os.last().0 == id {
            w
        } else {
            w.push(os.last())
        }
    }
}

/// The source an object records for a requested one: `generated` and
/// `rocketpy` stand, anything else is `files`.
pub open spec fn source_kind(s: Seq<char>) -> Seq<char> {
    if s == "generated"@ {
        "generated"@
    } else if s == "rocketpy"@ {
        "rocketpy"@
    } else {
        "files"@
    }
}

fn kind_of_source(s: &String) -> (r: String)
    ensures
        r@ == source_kind(s@),
{
    let cs = chars_of(s.as_str());
    let g = chars_of("generated");
    let p = chars_of("rocketpy");
    if eq_chars(&cs, &g) {
        String::from_str("generated")
    } else if eq_chars(&cs, &p) {
        String::from_str("rocketpy")
    } else {
        default_source()
    }
}

/// What insertion of tracks assigned to `o` and `m` reports, if anything.
pub open spec fn insert_error(os: Seq<ObjectRow>, ms: Seq<ModeRow>, o: Option<u64>, m: Option<u64>) -> Option<Seq<char>> {
    match (o, m) {
        (None, None) => None,
        (Some(o), Some(m)) => assignment_error(os, ms, o, m),
        _ => Some("object and mode are both required"@),
    }
}

/// Rows of new tracks named `names`, numbered from `first`.
pub open spec fn new_track_rows(names: Seq<Seq<char>>, first: u64, o: Option<u64>, m: Option<u64>) -> Seq<TrackRow> {
    Seq::new(names.len(), |i: int| ((first + i) as u64, names[i], o, m))
}

proof fn lemma_tracks_kept(ts: Seq<TrackRow>, c: TrackCut)
    ensures
        forall|k: int| 0 <= k < tracks_kept(ts, c).len() ==> ts.contains(#[trigger] tracks_kept(ts, c)[k]),
        forall|k: int| 0 <= k < tracks_kept(ts, c).len() ==> !track_cut(#[trigger] tracks_kept(ts, c)[k], c),
        (forall|i: int, j: int| 0 <= i < j < ts.len() ==> ts[i].0 < ts[j].0) ==> (forall|i: int, j: int|
            0 <= i < j < tracks_kept(ts, c).len() ==> tracks_kept(ts, c)[i].0 < tracks_kept(ts, c)[j].0),
    decreases ts.len(),
{
    if ts.len() > 0 {
        let init = ts.drop_last();
        lemma_tracks_kept(init, c);
        let w = tracks_kept(init, c);
        let kept = tracks_kept(ts, c);
        assert forall|k: int| 0 <= k < kept.len() implies ts.contains(#[trigger] kept[k]) by {
            if k < w.len() {
                assert(init.contains(w[k]));
                let j = choose|j: int| 0 <= j < init.len() && init[j] == w[k];
                assert(ts[j] == init[j]);
            } else {
                assert(ts[ts.len() - 1] == ts.last());
            }
        }
        if forall|i: int, j: int| 0 <= i < j < ts.len() ==> ts[i].0 < ts[j].0 {
            assert forall|i: int, j: int| 0 <= i < j < init.len() implies init[i].0 < init[j].0 by {
                assert(init[i] == ts[i] && init[j] == ts[j]);
            }
            assert forall|i: int, j: int| 0 <= i < j < kept.len() implies kept[i].0 < kept[j].0 by {
                if j >= w.len() {
                    assert(init.contains(w[i]));
                    let a = choose|a: int| 0 <= a < init.len() && init[a] == w[i];
                    assert(ts[a] == init[a]);
                    assert(kept[j] == ts[ts.len() - 1]);
                }
            }
        }
    }
}

proof fn lemma_modes_kept(ms: Seq<ModeRow>, c: ModeCut)
    ensures
        forall|k: int| 0 <= k < modes_kept(ms, c).len() ==> ms.contains(#[trigger] modes_kept(ms, c)[k]),
        forall|k: int| 0 <= k < modes_kept(ms, c).len() ==> !mode_cut(#[trigger] modes_kept(ms, c)[k], c),
        forall|k: int| 0 <= k < ms.len() && !mode_cut(ms[k], c) ==> modes_kept(ms, c).contains(#[trigger] ms[k]),
        (forall|i: int, j: int| 0 <= i < j < ms.len() ==> ms[i].0 < ms[j].0) ==> (forall|i: int, j: int|
            0 <= i < j < modes_kept(ms, c).len() ==> modes_kept(ms, c)[i].0 < modes_kept(ms, c)[j].0),
    decreases ms.len(),
{
    if ms.len() > 0 {
        let init = ms.drop_last();
        lemma_modes_kept(init, c);
        let w = modes_kept(init, c);
        let kept = modes_kept(ms, c);
        assert forall|k: int| 0 <= k < kept.len() implies ms.contains(#[trigger] kept[k]) by {
            if k < w.len() {
                assert(init.contains(w[k]));
                let j = choose|j: int| 0 <= j < init.len() && init[j] == w[k];
                assert(ms[j] == init[j]);
            } else {
                assert(ms[ms.len() - 1] == ms.last());
            }
        }
        assert forall|k: int| 0 <= k < ms.len() && !mode_cut(ms[k], c) implies kept.contains(#[trigger] ms[k]) by {
            if k < init.len() {
                assert(ms[k] == init[k]);
                assert(w.contains(init[k]));
                let j = choose|j: int| 0 <= j < w.len() && w[j] == init[k];
                assert(kept[j] == w[j]);
            } else {
                assert(kept[kept.len() - 1] == ms.last());
            }
        }
        if forall|i: int, j: int| 0 <= i < j < ms.len() ==> ms[i].0 < ms[j].0 {
            assert forall|i: int, j: int| 0 <= i < j < init.len() implies init[i].0 < init[j].0 by {
                assert(init[i] == ms[i] && init[j] == ms[j]);
            }
            assert forall|i: int, j: int| 0 <= i < j < kept.len() implies kept[i].0 < kept[j].0 by {
                if j >= w.len() {
                    assert(init.contains(w[i]));
                    let a = choose|a: int| 0 <= a < init.len() && init[a] == w[i];
                    assert(ms[a] == init[a]);
                    assert(kept[j] == ms[ms.len() - 1]);
                }
            }
        }
    }
}

proof fn lemma_objects_kept(os: Seq<ObjectRow>, id: u64)
    ensures
        forall|k: int| 0 <= k < objects_kept(os, id).len() ==> os.contains(#[trigger] objects_kept(os, id)[k]),
        forall|k: int| 0 <= k < objects_kept(os, id).len() ==> (#[trigger] objects_kept(os, id)[k]).0 != id,
        forall|k: int| 0 <= k < os.len() && os[k].0 != id ==> objects_kept(os, id).contains(#[trigger] os[k]),
        (forall|i: int, j: int| 0 <= i < j < os.len() ==> os[i].0 < os[j].0) ==> (forall|i: int, j: int|
            0 <= i < j < objects_kept(os, id).len() ==> objects_kept(os, id)[i].0 < objects_kept(os, id)[j].0),
    decreases os.len(),
{
    if os.len() > 0 {
        let init = os.drop_last();
        lemma_objects_kept(init, id);
        let w = objects_kept(init, id);
        let kept = objects_kept(os, id);
        assert forall|k: int| 0 <= k < kept.len() implies os.contains(#[trigger] kept[k]) by {
            if k < w.len() {
                assert(init.contains(w[k]));
                let j = choose|j: int| 0 <= j < init.len() && init[j] == w[k];
                assert(os[j] == init[j]);
            } else {
                assert(os[os.len() - 1] == os.last());
            }
        }
        assert forall|k: int| 0 <= k < os.len() && os[k].0 != id implies kept.contains(#[trigger] os[k]) by {
            if k < init.len() {
                assert(os[k] == init[k]);
                assert(w.contains(init[k]));
                let j = choose|j: int| 0 <= j < w.len() && w[j] == init[k];
                assert(kept[j] == w[j]);
            } else {
                assert(kept[kept.len() - 1] == os.last());
            }
        }
        if forall|i: int, j: int| 0 <= i < j < os.len() ==> os[i].0 < os[j].0 {
            assert forall|i: int, j: int| 0 <= i < j < init.len() implies init[i].0 < init[j].0 by {
                assert(init[i] == os[i] && init[j] == os[j]);
            }
            assert forall|i: int, j: int| 0 <= i < j < kept.len() implies kept[i].0 < kept[j].0 by {
                if j >= w.len() {
                    assert(init.contains(w[i]));
                    let a = choose|a: int| 0 <= a < init.len() && init[a] == w[i];
                    assert(os[a] == init[a]);
                    assert(kept[j] == os[os.len() - 1]);
                }
            }
        }
    }
}

/// First failure mode of object `o` at or after row `i` whose name,
/// ASCII-lower-cased, is `lname`.
pub open spec fn first_mode_named(ms: Seq<ModeRow>, o: u64, lname: Seq<char>, i: int) -> Option<u64>
    decreases ms.len() - i,
{
    if i < 0 || i >= ms.len() {
        None
    } else if ms[i].1 == o && lower_seq(ms[i].2) == lname {
        Some(ms[i].0)
    } else {
        first_mode_named(ms, o, lname, i + 1)
    }
}

/// Ids of the failure modes of object `o`, in order.
pub open spec fn mode_ids_for(ms: Seq<ModeRow>, o: u64) -> Seq<u64>
    decreases ms.len(),
{
    if ms.len() == 0 {
        Seq::empty()
    } else {
        let w = mode_ids_for(ms.drop_last(), o);
        if ms.last().1 == o {
            w.push(ms.last().0)
        } else {
            w
        }
    }
}

/// Whether a track counts as assigned for `o`: to that object (or to any
/// object when `o` is `None`), with a failure mode.
pub open spec fn assigned_for(t: TrackRow, o: Option<u64>) -> bool {
    match o {
        Some(id) => t.2 == Some(id) && t.3 is Some,
        None => t.2 is Some && t.3 is Some,
    }
}

/// Ids of the tracks assigned for `o`, in order.
pub open spec fn assigned_ids(ts: Seq<TrackRow>, o: Option<u64>) -> Seq<u64>
    decreases ts.len(),
{
    if ts.len() == 0 {
        Seq::empty()
    } else {
        let w = assigned_ids(ts.drop_last(), o);
        if assigned_for(ts.last(), o) {
            w.push(ts.last().0)
        } else {
            w
        }
    }
}

/// Names of the tracks of object `o`, in order.
pub open spec fn track_names_for(ts: Seq<TrackRow>, o: u64) -> Seq<Seq<char>>
    decreases ts.len(),
{
    if ts.len() == 0 {
        Seq::empty()
    } else {
        let w = track_names_for(ts.drop_last(), o);
        if ts.last().2 == Some(o) {
            w.push(ts.last().1)
        } else {
            w
        }
    }
}


/// Ids of the tracks of failure mode `m`, in table order.
pub open spec fn mode_track_ids(ts: Seq<TrackRow>, m: u64) -> Seq<u64>
    decreases ts.len(),
{
    if ts.len() == 0 {
        Seq::empty()
    } else {
        let w = mode_track_ids(ts.drop_last(), m);
        if ts.last().3 == Some(m) {
            w.push(ts.last().0)
        } else {
            w
        }
    }
}

/// How many of failure modes `mo` have no track.
pub open spec fn empty_mode_count(mo: Seq<ModeRow>, ts: Seq<TrackRow>) -> nat
    decreases mo.len(),
{
    if mo.len() == 0 {
        0
    } else {
        empty_mode_count(mo.drop_last(), ts) + if mode_track_ids(ts, mo.last().0).len() == 0 {
            1nat
        } else {
            0nat
        }
    }
}

/// A failure mode of an object: its id, its name and its tracks' ids.
#[derive(Debug, Clone)]
pub struct ModeSummary {
    pub id: u64,
    pub name: String,
    pub track_ids: Vec<u64>,
}

/// An object with its failure modes, each with its tracks, and how many of
/// those modes have no track.
#[derive(Debug, Clone)]
pub struct ObjectSummary {
    pub id: u64,
    pub name: String,
    pub source: String,
    pub modes: Vec<ModeSummary>,
    pub empty_modes: usize,
}

/// `v` summarises object row `row`: its failure modes in table (and id)
/// order, the tracks of each in table (and id) order, and the count of
/// modes without a track.
pub open spec fn summarises(v: ObjectSummary, row: ObjectRow, ms: Seq<ModeRow>, ts: Seq<TrackRow>) -> bool {
    let mo = modes_of(ms, row.0);
    &&& v.id == row.0 && v.name@ == row.1 && v.source@ == row.2
    &&& v.modes@.len() == mo.len()
    &&& forall|j: int| 0 <= j < mo.len() ==> {
        &&& (#[trigger] v.modes@[j]).id == mo[j].0
        &&& v.modes@[j].name@ == mo[j].2
        &&& v.modes@[j].track_ids@ == mode_track_ids(ts, mo[j].0)
    }
    &&& v.empty_modes == empty_mode_count(mo, ts)
}

/// The failure mode a name asks for.
#[derive(Debug, Clone, Copy, PartialEq, Eq, Structural)]
pub enum NamedMode {
    /// A mode of that name already exists.
    Found(u64),
    /// A new mode was added; `first` when it is the object's only mode.
    Made { id: u64, first: bool },
}

/// The relations between objects, failure modes and tracks. The fields are
/// private: only `new` makes a registry, and every method that changes one
/// keeps `wf`, so every registry a caller can hold meets the `wf` the
/// methods require.
pub struct Registry {
    objects: Vec<RiskObject>,
    modes: Vec<FailureMode>,
    tracks: Vec<TrackLink>,
    next_object: u64,
    next_mode: u64,
    next_track: u64,
}

impl Registry {
    /// The objects, in table order.
    pub closed spec fn objects(&self) -> Seq<ObjectRow> {
        object_rows(self.objects@)
    }

    /// The failure modes, in table order.
    pub closed spec fn modes(&self) -> Seq<ModeRow> {
        mode_rows(self.modes@)
    }

    /// The tracks, in table order.
    pub closed spec fn tracks(&self) -> Seq<TrackRow> {
        track_rows(self.tracks@)
    }

    /// The ids the next object, failure mode and track will get.
    pub closed spec fn next_ids(&self) -> (u64, u64, u64) {
        (self.next_object, self.next_mode, self.next_track)
    }

    /// The relations hold (see `tables_wf`).
    pub open spec fn wf(&self) -> bool {
        tables_wf(
            self.objects(),
            self.modes(),
            self.tracks(),
            self.next_ids().0,
            self.next_ids().1,
            self.next_ids().2,
        )
    }

    /// An empty registry; ids start at 1.
    pub fn new() -> (r: Self)
        ensures
            r.wf(),
            r.objects().len() == 0,
            r.modes().len() == 0,
            r.tracks().len() == 0,
            r.next_ids() == (1u64, 1u64, 1u64),
    {
        let r = Registry {
            objects: Vec::new(),
            modes: Vec::new(),
            tracks: Vec::new(),
            next_object: 1,
            next_mode: 1,
            next_track: 1,
        };
        assert(object_rows(r.objects@) =~= Seq::<ObjectRow>::empty());
        assert(mode_rows(r.modes@) =~= Seq::<ModeRow>::empty());
        assert(track_rows(r.tracks@) =~= Seq::<TrackRow>::empty());
        r
    }

    fn object_index(&self, id: u64) -> (r: Option<usize>)
        ensures
            match r {
                Some(i) => i < self.objects().len() && self.objects()[i as int].0 == id,
                None => !has_object(self.objects(), id),
            },
    {
        let mut i: usize = 0;
        while i < self.objects.len()
            invariant
                i <= self.objects@.len(),
                forall|k: int| 0 <= k < i ==> self.objects@[k].id != id,
            decreases self.objects@.len() - i,
        {
            if self.objects[i].id == id {
                return Some(i);
            }
            i += 1;
        }
        assert forall|k: int| 0 <= k < self.objects().len() implies #[trigger] self.objects()[k].0 != id by {
            assert(self.objects()[k].0 == self.objects@[k].id);
        }
        None
    }

    fn mode_index(&self, id: u64) -> (r: Option<usize>)
        ensures
            match r {
                Some(i) => i < self.modes().len() && self.modes()[i as int].0 == id,
                None => !has_mode(self.modes(), id),
            },
    {
        let mut i: usize = 0;
        while i < self.modes.len()
            invariant
                i <= self.modes@.len(),
                forall|k: int| 0 <= k < i ==> self.modes@[k].id != id,
            decreases self.modes@.len() - i,
        {
            if self.modes[i].id == id {
                return Some(i);
            }
            i += 1;
        }
        assert forall|k: int| 0 <= k < self.modes().len() implies #[trigger] self.modes()[k].0 != id by {
            assert(self.modes()[k].0 == self.modes@[k].id);
        }
        None
    }

    /// Whether object `id` exists.
    pub fn contains_object(&self, id: u64) -> (b: bool)
        ensures
            b == has_object(self.objects(), id),
    {
        self.object_index(id).is_some()
    }

    /// Adds an object named `name` whose trajectories come from files; it
    /// gets the next object id.
    pub fn create_object_empty(&mut self, name: String) -> (id: u64)
        requires
            old(self).wf(),
            old(self).next_ids().0 < u64::MAX,
        ensures
            final(self).wf(),
            id == old(self).next_ids().0,
            final(self).objects() == old(self).objects().push((id, name@, "files"@)),
            final(self).modes() == old(self).modes(),
            final(self).tracks() == old(self).tracks(),
            final(self).next_ids() == ((id + 1) as u64, old(self).next_ids().1, old(self).next_ids().2),
    {
        let id = self.next_object;
        let ghost os = self.objects();
        let ghost ms = self.modes();
        assert(tables_wf(os, ms, self.tracks(), id, self.next_mode, self.next_track));
        self.next_object = id + 1;
        self.objects.push(RiskObject { id, name, source: default_source() });
        assert(self.objects() =~= os.push((id, name@, "files"@)));
        assert(self.modes() == ms);
        assert(object_id_seq(self.objects()) =~= object_id_seq(os).push(id));
        proof {
            assert forall|k: int| 0 <= k < ms.len() implies has_object(
                self.objects(),
                #[trigger] ms[k].1,
            ) by {
                assert(has_object(os, ms[k].1));
                let i = choose|i: int| 0 <= i < os.len() && #[trigger] os[i].0 == ms[k].1;
                assert(self.objects()[i] == os[i]);
            }
        }
        id
    }

    /// Adds a failure mode named `name` to object `object_id`; it gets the
    /// next mode id. An unknown object is an error.
    pub fn add_mode(&mut self, object_id: u64, name: String) -> (r: Result<u64, String>)
        requires
            old(self).wf(),
            old(self).next_ids().1 < u64::MAX,
        ensures
            final(self).wf(),
            final(self).objects() == old(self).objects(),
            final(self).tracks() == old(self).tracks(),
            match r {
                Ok(id) => has_object(old(self).objects(), object_id) && id == old(self).next_ids().1
                    && final(self).modes() == old(self).modes().push((id, object_id, name@))
                    && final(self).next_ids() == (old(self).next_ids().0, (id + 1) as u64, old(self).next_ids().2),
                Err(e) => !has_object(old(self).objects(), object_id) && e@ == "unknown object"@
                    && final(self).modes() == old(self).modes() && final(self).next_ids() == old(
                    self,
                ).next_ids(),
            },
    {
        let found = self.object_index(object_id);
        if found.is_none() {
            return Err(String::from_str("unknown object"));
        }
        let id = self.next_mode;
        let ghost os = self.objects();
        let ghost ms = self.modes();
        let ghost ts = self.tracks();
        assert(tables_wf(os, ms, ts, self.next_object, id, self.next_track));
        self.next_mode = id + 1;
        self.modes.push(FailureMode { id, object_id, name });
        assert(self.modes() =~= ms.push((id, object_id, name@)));
        assert(self.objects() == os && self.tracks() == ts);
        assert(mode_id_seq(self.modes()) =~= mode_id_seq(ms).push(id));
        proof {
            let fi = found.unwrap();
            assert(os[fi as int].0 == object_id);
            assert(has_object(os, object_id));
            assert forall|k: int| 0 <= k < self.modes().len() implies has_object(
                os,
                #[trigger] self.modes()[k].1,
            ) by {
                if k < ms.len() {
                    assert(self.modes()[k] == ms[k]);
                }
            }
            assert forall|i: int| 0 <= i < ts.len() implies track_linked(
                self.modes(),
                #[trigger] ts[i],
            ) by {
                let t = ts[i];
                if t.2 is Some && t.3 is Some {
                    let m = t.3.unwrap();
                    let o = t.2.unwrap();
                    let k = choose|k: int| 0 <= k < ms.len() && #[trigger] ms[k].0 == m && ms[k].1 == o;
                    assert(self.modes()[k] == ms[k]);
                }
            }
        }
        Ok(id)
    }

    /// Whether tracks can go to failure mode `failure_mode_id` of object
    /// `object_id`: the mode must exist, belong to the object, and the
    /// object must exist.
    pub fn validate_assignment(&self, object_id: u64, failure_mode_id: u64) -> (r: Result<(), String>)
        requires
            self.wf(),
        ensures
            match r {
                Ok(()) => assignment_error(self.objects(), self.modes(), object_id, failure_mode_id) is None,
                Err(e) => assignment_error(self.objects(), self.modes(), object_id, failure_mode_id)
                    == Some(e@),
            },
    {
        let ghost ms = self.modes();
        let k = match self.mode_index(failure_mode_id) {
            Some(k) => k,
            None => return Err(String::from_str("unknown mode")),
        };
        if self.modes[k].object_id != object_id {
            proof {
                assert(ms[k as int].1 != object_id);
                assert forall|j: int| 0 <= j < ms.len() && #[trigger] ms[j].0 == failure_mode_id implies ms[j].1
                    != object_id by {
                    if j != k {
                        assert(mode_id_seq(ms)[j] == ms[j].0 && mode_id_seq(ms)[k as int] == ms[k as int].0);
                    }
                }
            }
            return Err(String::from_str("mode does not belong to that object"));
        }
        assert(ms[k as int].0 == failure_mode_id && ms[k as int].1 == object_id);
        if self.object_index(object_id).is_none() {
            return Err(String::from_str("unknown object"));
        }
        Ok(())
    }

    /// Assigns the tracks with ids in `track_ids` to failure mode
    /// `failure_mode_id` of object `object_id`; nothing changes when the
    /// assignment is not valid.
    pub fn assign_tracks(&mut self, track_ids: &[u64], object_id: u64, failure_mode_id: u64) -> (r: Result<(), String>)
        requires
            old(self).wf(),
        ensures
            final(self).wf(),
            final(self).objects() == old(self).objects(),
            final(self).modes() == old(self).modes(),
            final(self).next_ids() == old(self).next_ids(),
            match r {
                Ok(()) => assignment_error(old(self).objects(), old(self).modes(), object_id, failure_mode_id) is None
                    && final(self).tracks() == relinked(
                    old(self).tracks(),
                    track_ids@,
                    (Some(object_id), Some(failure_mode_id)),
                ),
                Err(e) => assignment_error(old(self).objects(), old(self).modes(), object_id, failure_mode_id)
                    == Some(e@) && final(self).tracks() == old(self).tracks(),
            },
    {
        match self.validate_assignment(object_id, failure_mode_id) {
            Err(e) => return Err(e),
            Ok(()) => {},
        }
        self.relink(track_ids, Some(object_id), Some(failure_mode_id));
        Ok(())
    }

    /// Leaves the tracks with ids in `track_ids` unassigned.
    pub fn unassign_tracks(&mut self, track_ids: &[u64])
        requires
            old(self).wf(),
        ensures
            final(self).wf(),
            final(self).objects() == old(self).objects(),
            final(self).modes() == old(self).modes(),
            final(self).next_ids() == old(self).next_ids(),
            final(self).tracks() == relinked(old(self).tracks(), track_ids@, (None, None)),
    {
        self.relink(track_ids, None, None);
    }

    fn relink(&mut self, track_ids: &[u64], object_id: Option<u64>, failure_mode_id: Option<u64>)
        requires
            old(self).wf(),
            link_ok(old(self).modes(), object_id, failure_mode_id),
        ensures
            final(self).wf(),
            final(self).objects() == old(self).objects(),
            final(self).modes() == old(self).modes(),
            final(self).next_ids() == old(self).next_ids(),
            final(self).tracks() == relinked(old(self).tracks(), track_ids@, (object_id, failure_mode_id)),
    {
        let ghost ts0 = self.tracks();
        let mut i: usize = 0;
        while i < self.tracks.len()
            invariant
                i <= self.tracks@.len(),
                self.tracks@.len() == ts0.len(),
                self.objects() == old(self).objects(),
                self.modes() == old(self).modes(),
                self.next_ids() == old(self).next_ids(),
                self.wf(),
                ts0 == old(self).tracks(),
                link_ok(self.modes(), object_id, failure_mode_id),
                forall|k: int|
                    0 <= k < ts0.len() ==> #[trigger] self.tracks()[k] == if k < i {
                        relinked(ts0, track_ids@, (object_id, failure_mode_id))[k]
                    } else {
                        ts0[k]
                    },
            decreases ts0.len() - i,
        {
            let id = self.tracks[i].id;
            if contains_id(track_ids, id) {
                let ghost before = self.tracks();
                let name = self.tracks[i].name.clone();
                self.tracks.set(i, TrackLink { id, name, object_id, failure_mode_id });
                proof {
                    assert(self.tracks() =~= before.update(i as int, (id, before[i as int].1, object_id, failure_mode_id)));
                    assert(track_id_seq(self.tracks()) =~= track_id_seq(before));
                    assert forall|k: int| 0 <= k < self.tracks().len() implies track_linked(
                        self.modes(),
                        #[trigger] self.tracks()[k],
                    ) by {
                        if k != i {
                            assert(self.tracks()[k] == before[k]);
                        }
                    }
                }
            }
            i += 1;
        }
        assert(self.tracks() =~= relinked(ts0, track_ids@, (object_id, failure_mode_id)));
    }

    fn drop_tracks(&mut self, ids: &[u64], object_id: Option<u64>, failure_mode_id: Option<u64>) -> (removed: Vec<u64>)
        requires
            old(self).wf(),
        ensures
            final(self).wf(),
            final(self).objects() == old(self).objects(),
            final(self).modes() == old(self).modes(),
            final(self).next_ids() == old(self).next_ids(),
            final(self).tracks() == tracks_kept(old(self).tracks(), (ids@, object_id, failure_mode_id)),
            removed@ == tracks_cut_ids(old(self).tracks(), (ids@, object_id, failure_mode_id)),
    {
        let ghost c: TrackCut = (ids@, object_id, failure_mode_id);
        let ghost ts = self.tracks();
        let mut kept: Vec<TrackLink> = Vec::new();
        let mut removed: Vec<u64> = Vec::new();
        let mut i: usize = 0;
        while i < self.tracks.len()
            invariant
                i <= self.tracks@.len(),
                ts == self.tracks(),
                ts == track_rows(self.tracks@),
                track_rows(kept@) == tracks_kept(ts.take(i as int), c),
                removed@ == tracks_cut_ids(ts.take(i as int), c),
                c == (ids@, object_id, failure_mode_id),
            decreases self.tracks@.len() - i,
        {
            assert(ts.take(i + 1).drop_last() =~= ts.take(i as int));
            assert(ts.take(i + 1).last() == ts[i as int]);
            let t = &self.tracks[i];
            let cut = contains_id(ids, t.id) || (object_id.is_some() && t.object_id == object_id) || (
            failure_mode_id.is_some() && t.failure_mode_id == failure_mode_id);
            assert(cut == track_cut(ts[i as int], c));
            if cut {
                removed.push(t.id);
            } else {
                let ghost before = track_rows(kept@);
                kept.push(TrackLink {
                    id: t.id,
                    name: t.name.clone(),
                    object_id: t.object_id,
                    failure_mode_id: t.failure_mode_id,
                });
                assert(track_rows(kept@) =~= before.push(ts[i as int]));
            }
            i += 1;
        }
        assert(ts.take(ts.len() as int) =~= ts);
        proof {
            let (no, nm, nt) = self.next_ids();
            assert(tables_wf(self.objects(), self.modes(), ts, no, nm, nt));
            lemma_tracks_kept(ts, c);
            let k2 = tracks_kept(ts, c);
            assert(track_rows(kept@) == k2);
            assert forall|a: int, b: int| 0 <= a < b < track_id_seq(k2).len() implies track_id_seq(k2)[a]
                < track_id_seq(k2)[b] by {
                assert forall|x: int, y: int| 0 <= x < y < ts.len() implies ts[x].0 < ts[y].0 by {
                    assert(track_id_seq(ts)[x] == ts[x].0 && track_id_seq(ts)[y] == ts[y].0);
                }
            }
            assert forall|a: int| 0 <= a < k2.len() implies track_id_seq(k2)[a] < nt && track_linked(
                self.modes(),
                #[trigger] k2[a],
            ) by {
                assert(ts.contains(k2[a]));
                let j = choose|j: int| 0 <= j < ts.len() && ts[j] == k2[a];
                assert(track_id_seq(ts)[j] == ts[j].0);
            }
        }
        self.tracks = kept;
        removed
    }

    /// Removes the tracks with ids in `ids`.
    pub fn remove_tracks(&mut self, ids: &[u64])
        requires
            old(self).wf(),
        ensures
            final(self).wf(),
            final(self).objects() == old(self).objects(),
            final(self).modes() == old(self).modes(),
            final(self).next_ids() == old(self).next_ids(),
            final(self).tracks() == tracks_kept(old(self).tracks(), (ids@, None, None)),
    {
        let _ = self.drop_tracks(ids, None, None);
    }

    /// Removes the tracks assigned to object `object_id`; returns their ids.
    pub fn remove_object_tracks(&mut self, object_id: u64) -> (removed: Vec<u64>)
        requires
            old(self).wf(),
        ensures
            final(self).wf(),
            final(self).objects() == old(self).objects(),
            final(self).modes() == old(self).modes(),
            final(self).next_ids() == old(self).next_ids(),
            final(self).tracks() == tracks_kept(old(self).tracks(), (Seq::empty(), Some(object_id), None)),
            removed@ == tracks_cut_ids(old(self).tracks(), (Seq::empty(), Some(object_id), None)),
    {
        let none: [u64; 0] = [];
        assert(none@ =~= Seq::<u64>::empty());
        self.drop_tracks(&none, Some(object_id), None)
    }

    fn drop_modes(&mut self, id: Option<u64>, object_id: Option<u64>)
        requires
            old(self).wf(),
            forall|i: int|
                0 <= i < old(self).tracks().len() ==> track_linked(
                    modes_kept(old(self).modes(), (id, object_id)),
                    #[trigger] old(self).tracks()[i],
                ),
        ensures
            final(self).wf(),
            final(self).objects() == old(self).objects(),
            final(self).tracks() == old(self).tracks(),
            final(self).next_ids() == old(self).next_ids(),
            final(self).modes() == modes_kept(old(self).modes(), (id, object_id)),
    {
        let ghost c: ModeCut = (id, object_id);
        let ghost ms = self.modes();
        let mut kept: Vec<FailureMode> = Vec::new();
        let mut i: usize = 0;
        while i < self.modes.len()
            invariant
                i <= self.modes@.len(),
                ms == self.modes(),
                ms == mode_rows(self.modes@),
                mode_rows(kept@) == modes_kept(ms.take(i as int), c),
                c == (id, object_id),
            decreases self.modes@.len() - i,
        {
            assert(ms.take(i + 1).drop_last() =~= ms.take(i as int));
            assert(ms.take(i + 1).last() == ms[i as int]);
            let m = &self.modes[i];
            let cut = id == Some(m.id) || object_id == Some(m.object_id);
            if !cut {
                let ghost before = mode_rows(kept@);
                kept.push(FailureMode { id: m.id, object_id: m.object_id, name: m.name.clone() });
                assert(mode_rows(kept@) =~= before.push(ms[i as int]));
            }
            i += 1;
        }
        assert(ms.take(ms.len() as int) =~= ms);
        proof {
            let (no, nm, nt) = self.next_ids();
            assert(tables_wf(self.objects(), ms, self.tracks(), no, nm, nt));
            lemma_modes_kept(ms, c);
            let k2 = modes_kept(ms, c);
            assert(mode_rows(kept@) == k2);
            assert forall|x: int, y: int| 0 <= x < y < ms.len() implies ms[x].0 < ms[y].0 by {
                assert(mode_id_seq(ms)[x] == ms[x].0 && mode_id_seq(ms)[y] == ms[y].0);
            }
            assert forall|a: int| 0 <= a < k2.len() implies mode_id_seq(k2)[a] < nm && has_object(
                self.objects(),
                #[trigger] k2[a].1,
            ) by {
                assert(ms.contains(k2[a]));
                let j = choose|j: int| 0 <= j < ms.len() && ms[j] == k2[a];
                assert(mode_id_seq(ms)[j] == ms[j].0);
            }
            assert forall|a: int, b: int| 0 <= a < b < mode_id_seq(k2).len() implies mode_id_seq(k2)[a]
                < mode_id_seq(k2)[b] by {
                assert(k2[a].0 < k2[b].0);
            }
        }
        self.modes = kept;
    }

    fn drop_object(&mut self, id: u64)
        requires
            old(self).wf(),
            forall|k: int| 0 <= k < old(self).modes().len() ==> (#[trigger] old(self).modes()[k]).1 != id,
        ensures
            final(self).wf(),
            final(self).modes() == old(self).modes(),
            final(self).tracks() == old(self).tracks(),
            final(self).next_ids() == old(self).next_ids(),
            final(self).objects() == objects_kept(old(self).objects(), id),
    {
        let ghost os = self.objects();
        let mut kept: Vec<RiskObject> = Vec::new();
        let mut i: usize = 0;
        while i < self.objects.len()
            invariant
                i <= self.objects@.len(),
                os == self.objects(),
                os == object_rows(self.objects@),
                object_rows(kept@) == objects_kept(os.take(i as int), id),
            decreases self.objects@.len() - i,
        {
            assert(os.take(i + 1).drop_last() =~= os.take(i as int));
            assert(os.take(i + 1).last() == os[i as int]);
            let o = &self.objects[i];
            if o.id != id {
                let ghost before = object_rows(kept@);
                kept.push(RiskObject { id: o.id, name: o.name.clone(), source: o.source.clone() });
                assert(object_rows(kept@) =~= before.push(os[i as int]));
            }
            i += 1;
        }
        assert(os.take(os.len() as int) =~= os);
        proof {
            let (no, nm, nt) = self.next_ids();
            assert(tables_wf(os, self.modes(), self.tracks(), no, nm, nt));
            lemma_objects_kept(os, id);
            let k2 = objects_kept(os, id);
            assert(object_rows(kept@) == k2);
            assert forall|x: int, y: int| 0 <= x < y < os.len() implies os[x].0 < os[y].0 by {
                assert(object_id_seq(os)[x] == os[x].0 && object_id_seq(os)[y] == os[y].0);
            }
            assert forall|a: int| 0 <= a < k2.len() implies object_id_seq(k2)[a] < no by {
                assert(os.contains(k2[a]));
                let j = choose|j: int| 0 <= j < os.len() && os[j] == k2[a];
                assert(object_id_seq(os)[j] == os[j].0);
            }
            assert forall|a: int, b: int| 0 <= a < b < object_id_seq(k2).len() implies object_id_seq(k2)[a]
                < object_id_seq(k2)[b] by {
                assert(k2[a].0 < k2[b].0);
            }
            assert forall|k: int| 0 <= k < self.modes().len() implies has_object(k2, #[trigger] self.modes()[k].1) by {
                let x = self.modes()[k].1;
                assert(has_object(os, x));
                let j = choose|j: int| 0 <= j < os.len() && #[trigger] os[j].0 == x;
                assert(x != id);
                assert(k2.contains(os[j]));
                let b = choose|b: int| 0 <= b < k2.len() && k2[b] == os[j];
                assert(k2[b].0 == x);
            }
        }
        self.objects = kept;
    }

    /// Removes failure mode `id` and the tracks assigned to it; returns the
    /// object it belonged to. An unknown mode is an error.
    pub fn remove_failure_mode(&mut self, id: u64) -> (r: Result<u64, String>)
        requires
            old(self).wf(),
        ensures
            final(self).wf(),
            final(self).objects() == old(self).objects(),
            final(self).next_ids() == old(self).next_ids(),
            match r {
                Ok(o) => mode_of_object(old(self).modes(), id, o)
                    && final(self).modes() == modes_kept(old(self).modes(), (Some(id), None))
                    && final(self).tracks() == tracks_kept(old(self).tracks(), (Seq::empty(), None, Some(id))),
                Err(e) => !has_mode(old(self).modes(), id) && e@ == "unknown mode"@
                    && final(self).modes() == old(self).modes() && final(self).tracks() == old(self).tracks(),
            },
    {
        let k = match self.mode_index(id) {
            Some(k) => k,
            None => return Err(String::from_str("unknown mode")),
        };
        let object_id = self.modes[k].object_id;
        let ghost ms = self.modes();
        let ghost ts = self.tracks();
        assert(ms[k as int].0 == id && ms[k as int].1 == object_id);
        let none: [u64; 0] = [];
        assert(none@ =~= Seq::<u64>::empty());
        let _ = self.drop_tracks(&none, None, Some(id));
        proof {
            let c: TrackCut = (Seq::empty(), None, Some(id));
            lemma_tracks_kept(ts, c);
            lemma_modes_kept(ms, (Some(id), None));
            let t2 = self.tracks();
            assert forall|i: int| 0 <= i < t2.len() implies track_linked(
                modes_kept(ms, (Some(id), None)),
                #[trigger] t2[i],
            ) by {
                assert(!track_cut(t2[i], c));
                assert(track_linked(ms, t2[i]));
                if t2[i].2 is Some && t2[i].3 is Some {
                    let m = t2[i].3.unwrap();
                    let o = t2[i].2.unwrap();
                    let j = choose|j: int| 0 <= j < ms.len() && #[trigger] ms[j].0 == m && ms[j].1 == o;
                    assert(m != id);
                    assert(modes_kept(ms, (Some(id), None)).contains(ms[j]));
                    let b = choose|b: int| 0 <= b < modes_kept(ms, (Some(id), None)).len() && modes_kept(
                        ms,
                        (Some(id), None),
                    )[b] == ms[j];
                    assert(modes_kept(ms, (Some(id), None))[b].0 == m);
                }
            }
        }
        self.drop_modes(Some(id), None);
        Ok(object_id)
    }

    /// Removes object `id`, its failure modes and its tracks; returns the
    /// removed tracks' ids. An unknown object is an error.
    pub fn remove_object(&mut self, id: u64) -> (r: Result<Vec<u64>, String>)
        requires
            old(self).wf(),
        ensures
            final(self).wf(),
            final(self).next_ids() == old(self).next_ids(),
            match r {
                Ok(removed) => has_object(old(self).objects(), id)
                    && final(self).objects() == objects_kept(old(self).objects(), id)
                    && final(self).modes() == modes_kept(old(self).modes(), (None, Some(id)))
                    && final(self).tracks() == tracks_kept(old(self).tracks(), (Seq::empty(), Some(id), None))
                    && removed@ == tracks_cut_ids(old(self).tracks(), (Seq::empty(), Some(id), None)),
                Err(e) => !has_object(old(self).objects(), id) && e@ == "unknown object"@
                    && final(self).objects() == old(self).objects() && final(self).modes() == old(
                    self,
                ).modes() && final(self).tracks() == old(self).tracks(),
            },
    {
        if self.object_index(id).is_none() {
            return Err(String::from_str("unknown object"));
        }
        let ghost ms = self.modes();
        let ghost ts = self.tracks();
        let none: [u64; 0] = [];
        assert(none@ =~= Seq::<u64>::empty());
        let removed = self.drop_tracks(&none, Some(id), None);
        proof {
            let c: TrackCut = (Seq::empty(), Some(id), None);
            lemma_tracks_kept(ts, c);
            lemma_modes_kept(ms, (None, Some(id)));
            let t2 = self.tracks();
            assert forall|i: int| 0 <= i < t2.len() implies track_linked(
                modes_kept(ms, (None, Some(id))),
                #[trigger] t2[i],
            ) by {
                assert(!track_cut(t2[i], c));
                assert(track_linked(ms, t2[i]));
                if t2[i].2 is Some && t2[i].3 is Some {
                    let m = t2[i].3.unwrap();
                    let o = t2[i].2.unwrap();
                    let j = choose|j: int| 0 <= j < ms.len() && #[trigger] ms[j].0 == m && ms[j].1 == o;
                    assert(o != id);
                    assert(modes_kept(ms, (None, Some(id))).contains(ms[j]));
                    let b = choose|b: int| 0 <= b < modes_kept(ms, (None, Some(id))).len() && modes_kept(
                        ms,
                        (None, Some(id)),
                    )[b] == ms[j];
                    assert(modes_kept(ms, (None, Some(id)))[b].0 == m);
                }
            }
        }
        self.drop_modes(None, Some(id));
        proof {
            lemma_modes_kept(ms, (None, Some(id)));
        }
        self.drop_object(id);
        Ok(removed)
    }

    /// Adds tracks named `names` with the next track ids, assigned to
    /// `object_id` and `failure_mode_id` (both or neither); returns their
    /// ids. Nothing changes when the assignment is not valid.
    pub fn insert_tracks(&mut self, names: Vec<String>, object_id: Option<u64>, failure_mode_id: Option<u64>) -> (r: Result<Vec<u64>, String>)
        requires
            old(self).wf(),
            old(self).next_ids().2 + names@.len() <= u64::MAX,
        ensures
            final(self).wf(),
            final(self).objects() == old(self).objects(),
            final(self).modes() == old(self).modes(),
            match r {
                Ok(ids) => insert_error(old(self).objects(), old(self).modes(), object_id, failure_mode_id) is None
                    && ids@ == Seq::new(names@.len(), |i: int| (old(self).next_ids().2 + i) as u64)
                    && final(self).tracks() == old(self).tracks() + new_track_rows(
                    crate::text::str_views(names@),
                    old(self).next_ids().2,
                    object_id,
                    failure_mode_id,
                ) && final(self).next_ids() == (
                    old(self).next_ids().0,
                    old(self).next_ids().1,
                    (old(self).next_ids().2 + names@.len()) as u64,
                ),
                Err(e) => insert_error(old(self).objects(), old(self).modes(), object_id, failure_mode_id)
                    == Some(e@) && final(self).tracks() == old(self).tracks() && final(self).next_ids()
                    == old(self).next_ids(),
            },
    {
        match (object_id, failure_mode_id) {
            (None, None) => {},
            (Some(o), Some(m)) => {
                match self.validate_assignment(o, m) {
                    Err(e) => return Err(e),
                    Ok(()) => {},
                }
            },
            _ => return Err(String::from_str("object and mode are both required")),
        }
        let ghost ms = self.modes();
        let ghost ts0 = self.tracks();
        let ghost first = self.next_track;
        let ghost nv = crate::text::str_views(names@);
        proof {
            if object_id is Some {
                assert(mode_of_object(ms, failure_mode_id.unwrap(), object_id.unwrap()));
            }
        }
        let mut ids: Vec<u64> = Vec::new();
        let mut i: usize = 0;
        while i < names.len()
            invariant
                i <= names@.len(),
                nv == crate::text::str_views(names@),
                first + names@.len() <= u64::MAX,
                self.next_track == first + i,
                self.wf(),
                self.objects() == old(self).objects(),
                self.modes() == ms,
                ms == old(self).modes(),
                self.next_object == old(self).next_ids().0,
                self.next_mode == old(self).next_ids().1,
                first == old(self).next_ids().2,
                ts0 == old(self).tracks(),
                self.tracks() == ts0 + new_track_rows(nv.take(i as int), first, object_id, failure_mode_id),
                ids@ == Seq::new(i as nat, |k: int| (first + k) as u64),
                link_ok(ms, object_id, failure_mode_id),
            decreases names@.len() - i,
        {
            let id = self.next_track;
            let ghost before = self.tracks();
            self.next_track = id + 1;
            self.tracks.push(TrackLink { id, name: names[i].clone(), object_id, failure_mode_id });
            proof {
                assert(self.tracks() =~= before.push((id, nv[i as int], object_id, failure_mode_id)));
                assert(new_track_rows(nv.take(i + 1), first, object_id, failure_mode_id) =~= new_track_rows(
                    nv.take(i as int),
                    first,
                    object_id,
                    failure_mode_id,
                ).push((id, nv[i as int], object_id, failure_mode_id)));
                assert(track_id_seq(self.tracks()) =~= track_id_seq(before).push(id));
                assert forall|k: int| 0 <= k < self.tracks().len() implies track_linked(
                    ms,
                    #[trigger] self.tracks()[k],
                ) by {
                    if k < before.len() {
                        assert(self.tracks()[k] == before[k]);
                    }
                }
            }
            ids.push(id);
            assert(ids@ =~= Seq::new((i + 1) as nat, |k: int| (first + k) as u64));
            i += 1;
        }
        assert(nv.take(names@.len() as int) =~= nv);
        Ok(ids)
    }

    fn first_named(&self, object_id: u64, lname: &Vec<char>) -> (r: Option<u64>)
        ensures
            r == first_mode_named(self.modes(), object_id, lname@, 0),
    {
        let ghost ms = self.modes();
        let mut i: usize = 0;
        while i < self.modes.len()
            invariant
                i <= self.modes@.len(),
                ms == self.modes(),
                first_mode_named(ms, object_id, lname@, i as int) == first_mode_named(ms, object_id, lname@, 0),
            decreases self.modes@.len() - i,
        {
            let m = &self.modes[i];
            if m.object_id == object_id {
                let l = lower_chars(&chars_of(m.name.as_str()));
                if eq_chars(&l, lname) {
                    return Some(m.id);
                }
            }
            i += 1;
        }
        None
    }

    /// The object's failure mode named `nominal` in any case, if any.
    pub fn nominal_mode_id(&self, object_id: u64) -> (r: Option<u64>)
        ensures
            r == first_mode_named(self.modes(), object_id, "nominal"@, 0),
    {
        let l = chars_of("nominal");
        self.first_named(object_id, &l)
    }

    /// The object's failure mode whose name equals `name` ignoring ASCII
    /// case, if any.
    pub fn named_mode(&self, object_id: u64, name: &str) -> (r: Option<u64>)
        ensures
            r == first_mode_named(self.modes(), object_id, lower_seq(name@), 0),
    {
        let l = lower_chars(&chars_of(name));
        self.first_named(object_id, &l)
    }

    /// Ids of the object's failure modes, ascending.
    pub fn mode_ids(&self, object_id: u64) -> (r: Vec<u64>)
        ensures
            r@ == mode_ids_for(self.modes(), object_id),
    {
        let ghost ms = self.modes();
        let mut out: Vec<u64> = Vec::new();
        let mut i: usize = 0;
        while i < self.modes.len()
            invariant
                i <= self.modes@.len(),
                ms == self.modes(),
                out@ == mode_ids_for(ms.take(i as int), object_id),
            decreases self.modes@.len() - i,
        {
            assert(ms.take(i + 1).drop_last() =~= ms.take(i as int));
            assert(ms.take(i + 1).last() == ms[i as int]);
            if self.modes[i].object_id == object_id {
                out.push(self.modes[i].id);
            }
            i += 1;
        }
        assert(ms.take(ms.len() as int) =~= ms);
        out
    }

    /// The object's failure mode named `name` (ignoring ASCII case), added
    /// when there is none. An unknown object is an error.
    pub fn ensure_named_mode(&mut self, object_id: u64, name: &str) -> (r: Result<NamedMode, String>)
        requires
            old(self).wf(),
            old(self).next_ids().1 < u64::MAX,
        ensures
            final(self).wf(),
            final(self).objects() == old(self).objects(),
            final(self).tracks() == old(self).tracks(),
            match r {
                Ok(NamedMode::Found(id)) => first_mode_named(old(self).modes(), object_id, lower_seq(name@), 0)
                    == Some(id) && final(self).modes() == old(self).modes(),
                Ok(NamedMode::Made { id, first }) => first_mode_named(
                    old(self).modes(),
                    object_id,
                    lower_seq(name@),
                    0,
                ) is None && has_object(old(self).objects(), object_id) && id == old(self).next_ids().1
                    && first == (mode_ids_for(old(self).modes(), object_id).len() == 0)
                    && final(self).modes() == old(self).modes().push((id, object_id, name@)),
                Err(e) => first_mode_named(old(self).modes(), object_id, lower_seq(name@), 0) is None
                    && !has_object(old(self).objects(), object_id) && e@ == "unknown object"@
                    && final(self).modes() == old(self).modes(),
            },
    {
        if let Some(id) = self.named_mode(object_id, name) {
            return Ok(NamedMode::Found(id));
        }
        let first = self.mode_ids(object_id).len() == 0;
        match self.add_mode(object_id, String::from_str(name)) {
            Ok(id) => Ok(NamedMode::Made { id, first }),
            Err(e) => Err(e),
        }
    }

    /// Ids of the tracks assigned to object `object_id` with a failure mode
    /// (to any object when `None`), ascending.
    pub fn assigned_tracks_for(&self, object_id: Option<u64>) -> (r: Vec<u64>)
        ensures
            r@ == assigned_ids(self.tracks(), object_id),
    {
        let ghost ts = self.tracks();
        let mut out: Vec<u64> = Vec::new();
        let mut i: usize = 0;
        while i < self.tracks.len()
            invariant
                i <= self.tracks@.len(),
                ts == self.tracks(),
                out@ == assigned_ids(ts.take(i as int), object_id),
            decreases self.tracks@.len() - i,
        {
            assert(ts.take(i + 1).drop_last() =~= ts.take(i as int));
            assert(ts.take(i + 1).last() == ts[i as int]);
            let t = &self.tracks[i];
            let hit = match object_id {
                Some(id) => t.object_id == Some(id) && t.failure_mode_id.is_some(),
                None => t.object_id.is_some() && t.failure_mode_id.is_some(),
            };
            if hit {
                out.push(t.id);
            }
            i += 1;
        }
        assert(ts.take(ts.len() as int) =~= ts);
        out
    }

    /// Names of the tracks of object `object_id`, in order.
    pub fn track_names_of(&self, object_id: u64) -> (r: Vec<String>)
        ensures
            crate::text::str_views(r@) == track_names_for(self.tracks(), object_id),
    {
        let ghost ts = self.tracks();
        let mut out: Vec<String> = Vec::new();
        let mut i: usize = 0;
        while i < self.tracks.len()
            invariant
                i <= self.tracks@.len(),
                ts == self.tracks(),
                crate::text::str_views(out@) == track_names_for(ts.take(i as int), object_id),
            decreases self.tracks@.len() - i,
        {
            assert(ts.take(i + 1).drop_last() =~= ts.take(i as int));
            assert(ts.take(i + 1).last() == ts[i as int]);
            if self.tracks[i].object_id == Some(object_id) {
                let ghost before = crate::text::str_views(out@);
                out.push(self.tracks[i].name.clone());
                assert(crate::text::str_views(out@) =~= before.push(ts[i as int].1));
            }
            i += 1;
        }
        assert(ts.take(ts.len() as int) =~= ts);
        out
    }

    /// Renames object `id`. An unknown object is an error.
    pub fn rename_object(&mut self, id: u64, name: String) -> (r: Result<(), String>)
        requires
            old(self).wf(),
        ensures
            final(self).wf(),
            final(self).modes() == old(self).modes(),
            final(self).tracks() == old(self).tracks(),
            final(self).next_ids() == old(self).next_ids(),
            match r {
                Ok(()) => exists|k: int|
                    0 <= k < old(self).objects().len() && old(self).objects()[k].0 == id
                        && final(self).objects() == old(self).objects().update(
                        k,
                        (id, name@, old(self).objects()[k].2),
                    ),
                Err(e) => !has_object(old(self).objects(), id) && e@ == "unknown object"@
                    && final(self).objects() == old(self).objects(),
            },
    {
        let k = match self.object_index(id) {
            Some(k) => k,
            None => return Err(String::from_str("unknown object")),
        };
        let ghost os = self.objects();
        let source = self.objects[k].source.clone();
        self.objects.set(k, RiskObject { id, name, source });
        proof {
            assert(self.objects() =~= os.update(k as int, (id, self.objects@[k as int].name@, os[k as int].2)));
            assert(object_id_seq(self.objects()) =~= object_id_seq(os));
            assert forall|m: int| 0 <= m < self.modes().len() implies has_object(
                self.objects(),
                #[trigger] self.modes()[m].1,
            ) by {
                let x = self.modes()[m].1;
                let j = choose|j: int| 0 <= j < os.len() && #[trigger] os[j].0 == x;
                assert(self.objects()[j].0 == os[j].0);
            }
        }
        Ok(())
    }

    /// Sets where object `id`'s trajectories come from: `generated` and
    /// `rocketpy` are kept, any other text reads as `files`. An unknown
    /// object is an error.
    pub fn set_object_source(&mut self, id: u64, source: String) -> (r: Result<(), String>)
        requires
            old(self).wf(),
        ensures
            final(self).wf(),
            final(self).modes() == old(self).modes(),
            final(self).tracks() == old(self).tracks(),
            final(self).next_ids() == old(self).next_ids(),
            match r {
                Ok(()) => exists|k: int|
                    0 <= k < old(self).objects().len() && old(self).objects()[k].0 == id
                        && final(self).objects() == old(self).objects().update(
                        k,
                        (id, old(self).objects()[k].1, source_kind(source@)),
                    ),
                Err(e) => !has_object(old(self).objects(), id) && e@ == "unknown object"@
                    && final(self).objects() == old(self).objects(),
            },
    {
        let k = match self.object_index(id) {
            Some(k) => k,
            None => return Err(String::from_str("unknown object")),
        };
        let ghost os = self.objects();
        let name = self.objects[k].name.clone();
        let source = kind_of_source(&source);
        self.objects.set(k, RiskObject { id, name, source });
        proof {
            assert(self.objects() =~= os.update(k as int, (id, os[k as int].1, self.objects@[k as int].source@)));
            assert(object_id_seq(self.objects()) =~= object_id_seq(os));
            assert forall|m: int| 0 <= m < self.modes().len() implies has_object(
                self.objects(),
                #[trigger] self.modes()[m].1,
            ) by {
                let x = self.modes()[m].1;
                let j = choose|j: int| 0 <= j < os.len() && #[trigger] os[j].0 == x;
                assert(self.objects()[j].0 == os[j].0);
            }
        }
        Ok(())
    }

    /// Empties every table; ids keep counting.
    pub fn clear(&mut self)
        requires
            old(self).wf(),
        ensures
            final(self).wf(),
            final(self).objects().len() == 0,
            final(self).modes().len() == 0,
            final(self).tracks().len() == 0,
            final(self).next_ids() == old(self).next_ids(),
    {
        self.tracks = Vec::new();
        self.modes = Vec::new();
        self.objects = Vec::new();
        assert(object_rows(self.objects@) =~= Seq::<ObjectRow>::empty());
        assert(mode_rows(self.modes@) =~= Seq::<ModeRow>::empty());
        assert(track_rows(self.tracks@) =~= Seq::<TrackRow>::empty());
    }

    /// The track with id `id`, if any.
    pub fn track(&self, id: u64) -> (r: Option<TrackLink>)
        ensures
            match r {
                Some(t) => exists|k: int|
                    0 <= k < self.tracks().len() && #[trigger] self.tracks()[k] == (
                        t.id,
                        t.name@,
                        t.object_id,
                        t.failure_mode_id,
                    ) && t.id == id,
                None => forall|k: int| 0 <= k < self.tracks().len() ==> (#[trigger] self.tracks()[k]).0 != id,
            },
    {
        let mut i: usize = 0;
        while i < self.tracks.len()
            invariant
                i <= self.tracks@.len(),
                forall|k: int| 0 <= k < i ==> (#[trigger] self.tracks()[k]).0 != id,
            decreases self.tracks@.len() - i,
        {
            let t = &self.tracks[i];
            if t.id == id {
                let out = TrackLink {
                    id: t.id,
                    name: t.name.clone(),
                    object_id: t.object_id,
                    failure_mode_id: t.failure_mode_id,
                };
                assert(self.tracks()[i as int] == (out.id, out.name@, out.object_id, out.failure_mode_id));
                return Some(out);
            }
            i += 1;
        }
        None
    }

    /// The object of failure mode `id`, if the mode exists.
    pub fn mode_object(&self, id: u64) -> (r: Option<u64>)
        ensures
            match r {
                Some(o) => mode_of_object(self.modes(), id, o),
                None => !has_mode(self.modes(), id),
            },
    {
        match self.mode_index(id) {
            Some(k) => Some(self.modes[k].object_id),
            None => None,
        }
    }

    fn planned_mode_tracks(&self, m: u64) -> (r: Vec<PlanTrack>)
        ensures
            tracks_named(r@, mode_track_names(self.tracks(), m)),
    {
        let ghost ts = self.tracks();
        let mut out: Vec<PlanTrack> = Vec::new();
        let mut i: usize = 0;
        while i < self.tracks.len()
            invariant
                i <= self.tracks@.len(),
                ts == self.tracks(),
                tracks_named(out@, mode_track_names(ts.take(i as int), m)),
            decreases self.tracks@.len() - i,
        {
            let t = &self.tracks[i];
            proof {
                assert(ts.take(i + 1).drop_last() =~= ts.take(i as int));
                assert(ts.take(i + 1).last() == ts[i as int]);
            }
            let hit = match t.failure_mode_id {
                Some(x) => x == m,
                None => false,
            };
            if hit {
                out.push(PlanTrack { name: t.name.clone(), loaded: Ok(()) });
            }
            i += 1;
        }
        assert(ts.take(ts.len() as int) =~= ts);
        out
    }

    fn planned_loose_tracks(&self) -> (r: Vec<PlanTrack>)
        ensures
            tracks_named(r@, loose_track_names(self.tracks())),
    {
        let ghost ts = self.tracks();
        let mut out: Vec<PlanTrack> = Vec::new();
        let mut i: usize = 0;
        while i < self.tracks.len()
            invariant
                i <= self.tracks@.len(),
                ts == self.tracks(),
                tracks_named(out@, loose_track_names(ts.take(i as int))),
            decreases self.tracks@.len() - i,
        {
            let t = &self.tracks[i];
            proof {
                assert(ts.take(i + 1).drop_last() =~= ts.take(i as int));
                assert(ts.take(i + 1).last() == ts[i as int]);
            }
            if t.object_id.is_none() || t.failure_mode_id.is_none() {
                out.push(PlanTrack { name: t.name.clone(), loaded: Ok(()) });
            }
            i += 1;
        }
        assert(ts.take(ts.len() as int) =~= ts);
        out
    }

    fn planned_modes(&self, o: u64) -> (r: Vec<PlanMode>)
        ensures
            r@.len() == modes_of(self.modes(), o).len(),
            forall|j: int| 0 <= j < r@.len() ==> mode_planned(#[trigger] r@[j], modes_of(self.modes(), o)[j], self.tracks()),
    {
        let ghost ms = self.modes();
        let ghost ts = self.tracks();
        let mut out: Vec<PlanMode> = Vec::new();
        let mut i: usize = 0;
        while i < self.modes.len()
            invariant
                i <= self.modes@.len(),
                ms == self.modes(),
                ts == self.tracks(),
                out@.len() == modes_of(ms.take(i as int), o).len(),
                forall|j: int| 0 <= j < out@.len() ==> mode_planned(#[trigger] out@[j], modes_of(ms.take(i as int), o)[j], ts),
            decreases self.modes@.len() - i,
        {
            let md = &self.modes[i];
            proof {
                assert(ms.take(i + 1).drop_last() =~= ms.take(i as int));
                assert(ms.take(i + 1).last() == ms[i as int]);
            }
            if md.object_id == o {
                let tracks = self.planned_mode_tracks(md.id);
                let ghost before = out@;
                out.push(PlanMode { name: md.name.clone(), tracks });
                proof {
                    assert forall|j: int| 0 <= j < out@.len() implies mode_planned(
                        #[trigger] out@[j],
                        modes_of(ms.take(i + 1), o)[j],
                        ts,
                    ) by {
                        if j < before.len() {
                            assert(out@[j] == before[j]);
                        }
                    }
                }
            }
            i += 1;
        }
        assert(ms.take(ms.len() as int) =~= ms);
        out
    }

    /// What a mission file records of the tables: every object in table
    /// order with its source and its failure modes, each failure mode with
    /// the tracks assigned to it, then the tracks that are not assigned.
    /// Every track is recorded with its data, so it loads again.
    pub fn mission_plan(&self) -> (plan: MissionPlan)
        ensures
            plan_records(plan, self.objects(), self.modes(), self.tracks()),
    {
        let ghost os = self.objects();
        let ghost ms = self.modes();
        let ghost ts = self.tracks();
        let mut out: Vec<PlanObject> = Vec::new();
        let mut i: usize = 0;
        while i < self.objects.len()
            invariant
                i <= self.objects@.len(),
                os == self.objects(),
                ms == self.modes(),
                ts == self.tracks(),
                out@.len() == i,
                forall|k: int| 0 <= k < i ==> object_planned(#[trigger] out@[k], os[k], ms, ts),
            decreases self.objects@.len() - i,
        {
            let ob = &self.objects[i];
            let modes = self.planned_modes(ob.id);
            let ghost before = out@;
            out.push(PlanObject { name: ob.name.clone(), source: Some(ob.source.clone()), modes });
            proof {
                assert(os[i as int] == (ob.id, ob.name@, ob.source@));
                assert forall|k: int| 0 <= k < i + 1 implies object_planned(#[trigger] out@[k], os[k], ms, ts) by {
                    if k < i {
                        assert(out@[k] == before[k]);
                    }
                }
            }
            i += 1;
        }
        let unassigned = self.planned_loose_tracks();
        MissionPlan { objects: out, unassigned }
    }

    fn mode_tracks_of(&self, m: u64) -> (r: Vec<u64>)
        ensures
            r@ == mode_track_ids(self.tracks(), m),
    {
        let ghost ts = self.tracks();
        let mut out: Vec<u64> = Vec::new();
        let mut i: usize = 0;
        while i < self.tracks.len()
            invariant
                i <= self.tracks@.len(),
                ts == self.tracks(),
                out@ == mode_track_ids(ts.take(i as int), m),
            decreases self.tracks@.len() - i,
        {
            let t = &self.tracks[i];
            proof {
                assert(ts.take(i + 1).drop_last() =~= ts.take(i as int));
                assert(ts.take(i + 1).last() == ts[i as int]);
            }
            let hit = match t.failure_mode_id {
                Some(x) => x == m,
                None => false,
            };
            if hit {
                out.push(t.id);
            }
            i += 1;
        }
        assert(ts.take(ts.len() as int) =~= ts);
        out
    }

    /// Object `id` with its failure modes and their tracks, in id order,
    /// and how many of its modes have no track; `None` for an unknown
    /// object.
    pub fn object_outline(&self, id: u64) -> (r: Option<ObjectSummary>)
        ensures
            match r {
                Some(v) => exists|k: int|
                    0 <= k < self.objects().len() && self.objects()[k].0 == id && summarises(
                        v,
                        #[trigger] self.objects()[k],
                        self.modes(),
                        self.tracks(),
                    ),
                None => !has_object(self.objects(), id),
            },
    {
        let k = match self.object_index(id) {
            Some(k) => k,
            None => return None,
        };
        let ghost row = self.objects()[k as int];
        let ghost ms = self.modes();
        let ghost ts = self.tracks();
        let mut modes: Vec<ModeSummary> = Vec::new();
        let mut empty: usize = 0;
        let mut i: usize = 0;
        while i < self.modes.len()
            invariant
                i <= self.modes@.len(),
                ms == self.modes(),
                ts == self.tracks(),
                modes@.len() == modes_of(ms.take(i as int), id).len(),
                forall|j: int| 0 <= j < modes@.len() ==> {
                    &&& (#[trigger] modes@[j]).id == modes_of(ms.take(i as int), id)[j].0
                    &&& modes@[j].name@ == modes_of(ms.take(i as int), id)[j].2
                    &&& modes@[j].track_ids@ == mode_track_ids(ts, modes_of(ms.take(i as int), id)[j].0)
                },
                empty == empty_mode_count(modes_of(ms.take(i as int), id), ts),
                empty <= i,
            decreases self.modes@.len() - i,
        {
            let md = &self.modes[i];
            proof {
                assert(ms.take(i + 1).drop_last() =~= ms.take(i as int));
                assert(ms.take(i + 1).last() == ms[i as int]);
            }
            if md.object_id == id {
                let tracks = self.mode_tracks_of(md.id);
                let ghost before = modes@;
                let ghost mo = modes_of(ms.take(i + 1), id);
                proof {
                    assert(mo.drop_last() == modes_of(ms.take(i as int), id));
                    assert(mo.last() == ms[i as int]);
                }
                if tracks.len() == 0 {
                    empty += 1;
                }
                modes.push(ModeSummary { id: md.id, name: md.name.clone(), track_ids: tracks });
                proof {
                    assert forall|j: int| 0 <= j < modes@.len() implies {
                        &&& (#[trigger] modes@[j]).id == mo[j].0
                        &&& modes@[j].name@ == mo[j].2
                        &&& modes@[j].track_ids@ == mode_track_ids(ts, mo[j].0)
                    } by {
                        if j < before.len() {
                            assert(modes@[j] == before[j]);
                        }
                    }
                }
            }
            i += 1;
        }
        assert(ms.take(ms.len() as int) =~= ms);
        let ob = &self.objects[k];
        let v = ObjectSummary {
            id: ob.id,
            name: ob.name.clone(),
            source: ob.source.clone(),
            modes,
            empty_modes: empty,
        };
        assert(summarises(v, row, ms, ts));
        Some(v)
    }

    /// The ids the next object, failure mode and track will get.
    pub fn next_id_values(&self) -> (r: (u64, u64, u64))
        ensures
            r == self.next_ids(),
    {
        (self.next_object, self.next_mode, self.next_track)
    }
}

/// Removing an object leaves no object with its id, no failure mode of it,
/// and no track assigned to it or to one of its modes.
pub proof fn law_removed_object_leaves_nothing(
    os: Seq<ObjectRow>,
    ms: Seq<ModeRow>,
    ts: Seq<TrackRow>,
    next_object: u64,
    next_mode: u64,
    next_track: u64,
    id: u64,
)
    requires
        tables_wf(os, ms, ts, next_object, next_mode, next_track),
    ensures
        !has_object(objects_kept(os, id), id),
        forall|k: int| 0 <= k < modes_kept(ms, (None, Some(id))).len() ==> (#[trigger] modes_kept(
            ms,
            (None, Some(id)),
        )[k]).1 != id,
        forall|i: int|
            0 <= i < tracks_kept(ts, (Seq::empty(), Some(id), None)).len() ==> {
                let t = #[trigger] tracks_kept(ts, (Seq::empty(), Some(id), None))[i];
                t.2 != Some(id) && (t.3 matches Some(m) ==> !mode_of_object(ms, m, id))
            },
{
    lemma_objects_kept(os, id);
    lemma_modes_kept(ms, (None, Some(id)));
    let c: TrackCut = (Seq::empty(), Some(id), None);
    lemma_tracks_kept(ts, c);
    let kept = tracks_kept(ts, c);
    assert forall|i: int| 0 <= i < kept.len() implies {
        let t = #[trigger] kept[i];
        t.2 != Some(id) && (t.3 matches Some(m) ==> !mode_of_object(ms, m, id))
    } by {
        let t = kept[i];
        assert(!track_cut(t, c));
        assert(ts.contains(t));
        let j = choose|j: int| 0 <= j < ts.len() && ts[j] == t;
        assert(track_linked(ms, ts[j]));
        if t.3 is Some && mode_of_object(ms, t.3.unwrap(), id) {
            let m = t.3.unwrap();
            let o = t.2.unwrap();
            let a = choose|a: int| 0 <= a < ms.len() && #[trigger] ms[a].0 == m && ms[a].1 == o;
            let b = choose|b: int| 0 <= b < ms.len() && #[trigger] ms[b].0 == m && ms[b].1 == id;
            assert(mode_id_seq(ms)[a] == ms[a].0 && mode_id_seq(ms)[b] == ms[b].0);
            assert(a == b);
        }
    }
}

/// Removing a failure mode leaves no track assigned to it.
pub proof fn law_removed_mode_leaves_no_tracks(ts: Seq<TrackRow>, id: u64)
    ensures
        forall|i: int|
            0 <= i < tracks_kept(ts, (Seq::empty(), None, Some(id))).len() ==> (#[trigger] tracks_kept(
                ts,
                (Seq::empty(), None, Some(id)),
            )[i]).3 != Some(id),
{
    lemma_tracks_kept(ts, (Seq::empty(), None, Some(id)));
}

/// The next ids are fresh: no object, failure mode or track has them yet.
pub proof fn law_next_ids_are_fresh(
    os: Seq<ObjectRow>,
    ms: Seq<ModeRow>,
    ts: Seq<TrackRow>,
    next_object: u64,
    next_mode: u64,
    next_track: u64,
)
    requires
        tables_wf(os, ms, ts, next_object, next_mode, next_track),
    ensures
        !has_object(os, next_object),
        !has_mode(ms, next_mode),
        forall|i: int| 0 <= i < ts.len() ==> (#[trigger] ts[i]).0 != next_track,
{
    assert forall|i: int| 0 <= i < os.len() implies #[trigger] os[i].0 != next_object by {
        assert(object_id_seq(os)[i] == os[i].0);
    }
    assert forall|i: int| 0 <= i < ms.len() implies #[trigger] ms[i].0 != next_mode by {
        assert(mode_id_seq(ms)[i] == ms[i].0);
    }
    assert forall|i: int| 0 <= i < ts.len() implies (#[trigger] ts[i]).0 != next_track by {
        assert(track_id_seq(ts)[i] == ts[i].0);
    }
}

proof fn lemma_mode_ids_for(ms: Seq<ModeRow>, o: u64)
    ensures
        forall|k: int| 0 <= k < mode_ids_for(ms, o).len() ==> exists|j: int|
            0 <= j < ms.len() && ms[j].0 == #[trigger] mode_ids_for(ms, o)[k],
        (forall|i: int, j: int| 0 <= i < j < ms.len() ==> ms[i].0 < ms[j].0) ==> (forall|a: int, b: int|
            0 <= a < b < mode_ids_for(ms, o).len() ==> mode_ids_for(ms, o)[a] < mode_ids_for(ms, o)[b]),
    decreases ms.len(),
{
    if ms.len() > 0 {
        let init = ms.drop_last();
        lemma_mode_ids_for(init, o);
        let w = mode_ids_for(init, o);
        let r = mode_ids_for(ms, o);
        assert forall|k: int| 0 <= k < r.len() implies exists|j: int| 0 <= j < ms.len() && ms[j].0 == #[trigger] r[k] by {
            if k < w.len() {
                let j = choose|j: int| 0 <= j < init.len() && init[j].0 == w[k];
                assert(ms[j] == init[j]);
            } else {
                assert(ms[ms.len() - 1].0 == r[k]);
            }
        }
        if forall|i: int, j: int| 0 <= i < j < ms.len() ==> ms[i].0 < ms[j].0 {
            assert forall|i: int, j: int| 0 <= i < j < init.len() implies init[i].0 < init[j].0 by {
                assert(init[i] == ms[i] && init[j] == ms[j]);
            }
            assert forall|a: int, b: int| 0 <= a < b < r.len() implies r[a] < r[b] by {
                if b >= w.len() {
                    let j = choose|j: int| 0 <= j < init.len() && init[j].0 == w[a];
                    assert(ms[j] == init[j]);
                }
            }
        }
    }
}

/// An object's failure mode ids come out ascending.
pub proof fn law_mode_ids_ascending(
    os: Seq<ObjectRow>,
    ms: Seq<ModeRow>,
    ts: Seq<TrackRow>,
    next_object: u64,
    next_mode: u64,
    next_track: u64,
    o: u64,
)
    requires
        tables_wf(os, ms, ts, next_object, next_mode, next_track),
    ensures
        forall|a: int, b: int|
            0 <= a < b < mode_ids_for(ms, o).len() ==> mode_ids_for(ms, o)[a] < mode_ids_for(ms, o)[b],
{
    assert forall|i: int, j: int| 0 <= i < j < ms.len() implies ms[i].0 < ms[j].0 by {
        assert(mode_id_seq(ms)[i] == ms[i].0 && mode_id_seq(ms)[j] == ms[j].0);
    }
    lemma_mode_ids_for(ms, o);
}

fn contains_id(ids: &[u64], id: u64) -> (r: bool)
    ensures
        r == ids@.contains(id),
{
    let mut i: usize = 0;
    while i < ids.len()
        invariant
            i <= ids@.len(),
            forall|k: int| 0 <= k < i ==> ids@[k] != id,
        decreases ids@.len() - i,
    {
        if ids[i] == id {
            return true;
        }
        i += 1;
    }
    false
}

} // verus!
