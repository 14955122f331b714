//! Mission bookkeeping: the recent-missions list, mission names, and where a
//! mission's trajectory files are looked for.

use vstd::prelude::*;
use crate::paths::{
    extension_of, file_name_of, file_stem_of, joined_path, path_extension, path_file_name,
    path_file_stem, path_join, path_strip_prefix, path_with_extension, stripped_prefix,
    with_extension_of,
};
use crate::text::{chars_of, string_of, trim, trim_chars, trim_chars_pat, trim_pat, Pat};

verus! {

/// Version written into new mission files.
pub const MISSION_VERSION: u32 = 1;

/// How many recent missions are remembered.
pub const RECENT_LIMIT: usize = 12;

/// Name of a mission that was never named.
pub open spec fn untitled() -> Seq<char> {
    "Untitled mission"@
}

/// One entry of the recent-missions list.
#[derive(Debug, Clone)]
pub struct RecentMission {
    pub name: String,
    pub path: String,
}

/// What the program remembers between sessions.
#[derive(Debug, Clone)]
pub struct SessionFile {
    pub last: Option<String>,
    pub recent: Vec<RecentMission>,
}

impl Default for SessionFile {
    fn default() -> (s: Self)
        ensures
            s.last is None,
            s.recent@.len() == 0,
    {
        SessionFile { last: None, recent: Vec::new() }
    }
}

pub fn mission_version() -> (v: u32)
    ensures
        v == MISSION_VERSION,
{
    MISSION_VERSION
}

pub fn default_true() -> (b: bool)
    ensures
        b,
{
    true
}

pub fn default_imagery() -> (s: String)
    ensures
        s@ == "satellite"@,
{
    String::from_str("satellite")
}

pub type Entry = (Seq<char>, Seq<char>);

pub open spec fn recent_views(v: Seq<RecentMission>) -> Seq<Entry> {
    Seq::new(v.len(), |i: int| (v[i].name@, v[i].path@))
}

/// Entries whose path is not `p`, in order.
pub open spec fn without_path(rs: Seq<Entry>, p: Seq<char>) -> Seq<Entry>
    decreases rs.len(),
{
    if rs.len() == 0 {
        Seq::empty()
    } else {
        let w = without_path(rs.drop_last(), p);
        if rs.last().1 == p {
            w
        } else {
            w.push(rs.last())
        }
    }
}

pub open spec fn cap(rs: Seq<Entry>) -> Seq<Entry> {
    if rs.len() > RECENT_LIMIT {
        rs.take(RECENT_LIMIT as int)
    } else {
        rs
    }
}

/// The recent list after opening `(name, path)`: it goes first, any older
/// entry for the same path is dropped, and at most twelve are kept.
pub open spec fn recent_after(rs: Seq<Entry>, name: Seq<char>, path: Seq<char>) -> Seq<Entry> {
    cap(seq![(name, path)] + without_path(rs, path))
}

/// Records that mission `name` at `path` was opened or saved.
pub fn push_recent(session: &mut SessionFile, name: &str, path: &str)
    ensures
        recent_views(final(session).recent@) == recent_after(
            recent_views(old(session).recent@),
            name@,
            path@,
        ),
        final(session).last matches Some(l) && l@ == path@,
{
    let ghost old_rs = recent_views(session.recent@);
    let mut kept: Vec<RecentMission> = Vec::new();
    let mut i: usize = 0;
    let path_s = String::from_str(path);
    while i < session.recent.len()
        invariant
            i <= session.recent@.len(),
            old_rs == recent_views(session.recent@),
            path_s@ == path@,
            recent_views(kept@) == without_path(old_rs.take(i as int), path@),
        decreases session.recent@.len() - i,
    {
        assert(old_rs.take(i + 1).drop_last() =~= old_rs.take(i as int));
        assert(old_rs.take(i + 1).last() == old_rs[i as int]);
        if session.recent[i].path != path_s {
            let ghost before = recent_views(kept@);
            let item = RecentMission {
                name: session.recent[i].name.clone(),
                path: session.recent[i].path.clone(),
            };
            kept.push(item);
            assert(recent_views(kept@) =~= before.push(old_rs[i as int]));
        }
        i += 1;
    }
    assert(old_rs.take(session.recent@.len() as int) =~= old_rs);
    let ghost rest = without_path(old_rs, path@);
    let mut out: Vec<RecentMission> = Vec::new();
    out.push(RecentMission { name: String::from_str(name), path: String::from_str(path) });
    let mut j: usize = 0;
    while j < kept.len() && out.len() < RECENT_LIMIT
        invariant
            j <= kept@.len(),
            out@.len() == j + 1,
            out@.len() <= RECENT_LIMIT,
            rest == recent_views(kept@),
            rest.len() == kept@.len(),
            recent_views(out@) == seq![(name@, path@)] + rest.take(j as int),
        decreases kept@.len() - j,
    {
        let ghost before = recent_views(out@);
        let item = RecentMission { name: kept[j].name.clone(), path: kept[j].path.clone() };
        out.push(item);
        assert(recent_views(out@) =~= before.push(rest[j as int]));
        assert(rest.take(j + 1) =~= rest.take(j as int).push(rest[j as int]));
        assert(seq![(name@, path@)] + rest.take(j + 1) =~= (seq![(name@, path@)] + rest.take(
            j as int,
        )).push(rest[j as int]));
        j += 1;
    }
    proof {
        let full = seq![(name@, path@)] + rest;
        if j == kept@.len() {
            assert(rest.take(j as int) =~= rest);
            assert(full.len() <= RECENT_LIMIT);
        } else {
            assert(full.take(RECENT_LIMIT as int) =~= seq![(name@, path@)] + rest.take(j as int));
        }
    }
    session.recent = out;
    session.last = Some(path_s);
}

proof fn lemma_without_path_no_p(rs: Seq<Entry>, p: Seq<char>)
    ensures
        forall|i: int| 0 <= i < without_path(rs, p).len() ==> (#[trigger] without_path(rs, p)[i]).1 != p,
        without_path(rs, p).len() <= rs.len(),
    decreases rs.len(),
{
    if rs.len() > 0 {
        lemma_without_path_no_p(rs.drop_last(), p);
    }
}

proof fn lemma_without_path_idem(rs: Seq<Entry>, p: Seq<char>)
    requires
        forall|i: int| 0 <= i < rs.len() ==> (#[trigger] rs[i]).1 != p,
    ensures
        without_path(rs, p) == rs,
    decreases rs.len(),
{
    if rs.len() > 0 {
        lemma_without_path_idem(rs.drop_last(), p);
        assert(rs.drop_last().push(rs.last()) =~= rs);
    }
}

/// The recent list is at most twelve long and starts with the mission just
/// recorded.
pub proof fn law_recent_head(rs: Seq<Entry>, name: Seq<char>, path: Seq<char>)
    ensures
        recent_after(rs, name, path).len() <= RECENT_LIMIT,
        recent_after(rs, name, path).len() >= 1,
        recent_after(rs, name, path)[0] == (name, path),
{
    let full = seq![(name, path)] + without_path(rs, path);
    assert(full[0] == (name, path));
}

/// The path just recorded appears once in the recent list.
pub proof fn law_recent_path_once(rs: Seq<Entry>, name: Seq<char>, path: Seq<char>)
    ensures
        forall|i: int|
            0 < i < recent_after(rs, name, path).len() ==> (#[trigger] recent_after(rs, name, path)[i]).1
                != path,
{
    lemma_without_path_no_p(rs, path);
    let w = without_path(rs, path);
    let full = seq![(name, path)] + w;
    assert forall|i: int| 0 < i < recent_after(rs, name, path).len() implies (
    #[trigger] recent_after(rs, name, path)[i]).1 != path by {
        assert(full[i] == w[i - 1]);
    }
}

/// Recording the same mission twice in a row leaves the list as one
/// recording does.
pub proof fn law_recent_idempotent(rs: Seq<Entry>, name: Seq<char>, path: Seq<char>)
    ensures
        recent_after(recent_after(rs, name, path), name, path) == recent_after(rs, name, path),
{
    let once = recent_after(rs, name, path);
    law_recent_path_once(rs, name, path);
    law_recent_head(rs, name, path);
    let tail = once.drop_first();
    assert forall|i: int| 0 <= i < tail.len() implies (#[trigger] tail[i]).1 != path by {
        assert(tail[i] == once[i + 1]);
    }
    lemma_without_path_idem(tail, path);
    assert(once =~= seq![(name, path)] + tail);
    lemma_without_path_step(seq![(name, path)], tail, path);
    assert(without_path(once, path) =~= tail);
    assert(seq![(name, path)] + tail =~= once);
}

proof fn lemma_without_path_step(head: Seq<Entry>, tail: Seq<Entry>, p: Seq<char>)
    requires
        head.len() == 1,
        head[0].1 == p,
        forall|i: int| 0 <= i < tail.len() ==> (#[trigger] tail[i]).1 != p,
    ensures
        without_path(head + tail, p) == tail,
    decreases tail.len(),
{
    if tail.len() == 0 {
        assert(head + tail =~= head);
        assert(head.drop_last() =~= Seq::<Entry>::empty());
        assert(without_path(Seq::<Entry>::empty(), p) =~= Seq::<Entry>::empty());
        assert(without_path(head, p) == without_path(head.drop_last(), p));
    } else {
        let t = tail.drop_last();
        assert forall|i: int| 0 <= i < t.len() implies (#[trigger] t[i]).1 != p by {
            assert(t[i] == tail[i]);
        }
        lemma_without_path_step(head, t, p);
        let whole = head + tail;
        assert(whole.drop_last() =~= head + t);
        assert(whole.last() == tail[tail.len() - 1]);
        assert(tail[tail.len() - 1].1 != p);
        assert(without_path(whole, p) == without_path(whole.drop_last(), p).push(whole.last()));
        assert(t.push(tail.last()) =~= tail);
    }
}

// ---------------------------------------------------------------------
// Mission names and files
// ---------------------------------------------------------------------

/// A mission's name as given: trimmed, or `Untitled mission` when blank.
pub open spec fn mission_name(name: Seq<char>) -> Seq<char> {
    if trim(name).len() == 0 {
        untitled()
    } else {
        trim(name)
    }
}

pub fn normalize_mission_name(name: &str) -> (r: String)
    ensures
        r@ == mission_name(name@),
{
    let cs = chars_of(name);
    let t = trim_chars(&cs);
    if t.len() == 0 {
        String::from_str("Untitled mission")
    } else {
        string_of(&t)
    }
}

pub open spec fn forbidden_in_file_name(c: char) -> bool {
    c == '<' || c == '>' || c == ':' || c == '"' || c == '/' || c == '\\' || c == '|' || c == '?'
        || c == '*'
}

pub open spec fn sanitized_chars(s: Seq<char>) -> Seq<char> {
    Seq::new(
        s.len(),
        |i: int|
            if forbidden_in_file_name(s[i]) {
                '_'
            } else {
                s[i]
            },
    )
}

/// File name for a mission: trimmed, characters that file systems refuse
/// made `_`, trimmed again and stripped of outer dots; `mission` if nothing
/// is left.
pub open spec fn sanitized_file_name(name: Seq<char>) -> Seq<char> {
    let c = trim_pat(trim(sanitized_chars(trim(name))), Pat::Dot);
    if c.len() == 0 {
        "mission"@
    } else {
        c
    }
}

pub fn sanitize_filename(name: &str) -> (r: String)
    ensures
        r@ == sanitized_file_name(name@),
{
    let cs = chars_of(name);
    let t = trim_chars(&cs);
    let mut m: Vec<char> = Vec::new();
    let mut i: usize = 0;
    while i < t.len()
        invariant
            i <= t@.len(),
            m@.len() == i,
            forall|k: int| 0 <= k < i ==> m@[k] == (if forbidden_in_file_name(t@[k]) {
                '_'
            } else {
                t@[k]
            }),
        decreases t@.len() - i,
    {
        let ch = t[i];
        let bad = ch == '<' || ch == '>' || ch == ':' || ch == '"' || ch == '/' || ch == '\\'
            || ch == '|' || ch == '?' || ch == '*';
        m.push(if bad { '_' } else { ch });
        i += 1;
    }
    assert(m@ =~= sanitized_chars(t@));
    let u = trim_chars(&m);
    let c = trim_chars_pat(&u, Pat::Dot);
    if c.len() == 0 {
        String::from_str("mission")
    } else {
        string_of(&c)
    }
}

/// A sanitised file name is never empty and holds none of the forbidden
/// characters.
pub proof fn law_sanitized_file_name(name: Seq<char>)
    ensures
        sanitized_file_name(name).len() > 0,
        forall|i: int|
            0 <= i < sanitized_file_name(name).len() ==> !forbidden_in_file_name(
                #[trigger] sanitized_file_name(name)[i],
            ),
{
    reveal_strlit("mission");
    let s = sanitized_chars(trim(name));
    let u = trim(s);
    let c = trim_pat(u, Pat::Dot);
    crate::text::lemma_skip_pat_bounds(s, Pat::Whitespace, 0);
    let a = crate::text::skip_pat(s, Pat::Whitespace, 0);
    let s1 = s.subrange(a, s.len() as int);
    crate::text::lemma_back_pat_bounds(s1, Pat::Whitespace, s1.len() as int);
    crate::text::lemma_skip_pat_bounds(u, Pat::Dot, 0);
    let b = crate::text::skip_pat(u, Pat::Dot, 0);
    let u1 = u.subrange(b, u.len() as int);
    crate::text::lemma_back_pat_bounds(u1, Pat::Dot, u1.len() as int);
    if c.len() > 0 {
        assert forall|i: int| 0 <= i < c.len() implies !forbidden_in_file_name(#[trigger] c[i]) by {
            assert(c[i] == u1[i]);
            assert(u1[i] == u[b + i]);
            assert(u[b + i] == s1[b + i]);
            assert(s1[b + i] == s[a + b + i]);
        }
    }
}

/// Where a stored track path is written: relative to the mission folder
/// when it lies below it.
pub fn store_path(path: &str, mission_dir: Option<&str>) -> (r: String)
    ensures
        r@ == match mission_dir {
            Some(d) => match stripped_prefix(path@, d@) {
                Some(rel) => rel,
                None => path@,
            },
            None => path@,
        },
{
    if let Some(dir) = mission_dir {
        if let Some(rel) = path_strip_prefix(path, dir) {
            return rel;
        }
    }
    String::from_str(path)
}

/// Places tried, in order, for a track: the stored path, the stored path
/// inside the mission folder, its file name inside the mission folder, and
/// the track's name inside the mission folder.
pub open spec fn track_candidates(stored: Option<Seq<char>>, name: Seq<char>, dir: Option<Seq<char>>) -> Seq<Seq<char>> {
    stored_candidates(stored, dir) + match dir {
        Some(d) => seq![joined_path(d, name)],
        None => Seq::empty(),
    }
}

pub open spec fn opt_view(o: Option<&str>) -> Option<Seq<char>> {
    match o {
        Some(s) => Some(s@),
        None => None,
    }
}

pub open spec fn stored_candidates(stored: Option<Seq<char>>, dir: Option<Seq<char>>) -> Seq<Seq<char>> {
    match stored {
        Some(raw) => if raw.len() == 0 {
            Seq::empty()
        } else {
            match dir {
                None => seq![raw],
                Some(d) => seq![raw, joined_path(d, raw)] + match file_name_of(raw) {
                    Some(f) => seq![joined_path(d, f)],
                    None => Seq::empty(),
                },
            }
        },
        None => Seq::empty(),
    }
}

fn stored_path_candidates(stored: Option<&str>, mission_dir: Option<&str>) -> (r: Vec<String>)
    ensures
        crate::text::str_views(r@) == stored_candidates(opt_view(stored), opt_view(mission_dir)),
{
    let mut out: Vec<String> = Vec::new();
    if let Some(raw) = stored {
        if !raw.is_empty() {
            out.push(String::from_str(raw));
            if let Some(dir) = mission_dir {
                out.push(path_join(dir, raw));
                if let Some(file) = path_file_name(raw) {
                    out.push(path_join(dir, file.as_str()));
                    assert(crate::text::str_views(out@) =~= seq![raw@, joined_path(dir@, raw@)] + seq![joined_path(dir@, file@)]);
                } else {
                    assert(crate::text::str_views(out@) =~= seq![raw@, joined_path(dir@, raw@)] + Seq::<Seq<char>>::empty());
                }
            } else {
                assert(crate::text::str_views(out@) =~= seq![raw@]);
            }
        } else {
            assert(raw@.len() == 0);
            assert(crate::text::str_views(out@) =~= Seq::<Seq<char>>::empty());
        }
    } else {
        assert(crate::text::str_views(out@) =~= Seq::<Seq<char>>::empty());
    }
    out
}

pub fn track_path_candidates(stored: Option<&str>, name: &str, mission_dir: Option<&str>) -> (r: Vec<String>)
    ensures
        crate::text::str_views(r@) == track_candidates(opt_view(stored), name@, opt_view(mission_dir)),
{
    let mut out = stored_path_candidates(stored, mission_dir);
    let ghost first = crate::text::str_views(out@);
    if let Some(dir) = mission_dir {
        out.push(path_join(dir, name));
        assert(crate::text::str_views(out@) =~= first + seq![joined_path(dir@, name@)]);
    } else {
        assert(crate::text::str_views(out@) =~= first + Seq::<Seq<char>>::empty());
    }
    out
}

/// First candidate that is a file, else the error the user sees.
pub open spec fn first_existing(cands: Seq<Seq<char>>, is_file: Seq<bool>, i: int) -> Option<Seq<char>>
    decreases cands.len() - i,
{
    if i < 0 || i >= cands.len() || i >= is_file.len() {
        None
    } else if is_file[i] {
        Some(cands[i])
    } else {
        first_existing(cands, is_file, i + 1)
    }
}

pub open spec fn missing_track_message(name: Seq<char>, stored: Option<Seq<char>>) -> Seq<char> {
    match stored {
        Some(p) => "missing trajectory "@ + name + " ("@ + p + ")"@,
        None => "cannot restore "@ + name + ": no file path stored"@,
    }
}

/// Picks the track file among the candidates, given which of them are files.
pub fn resolve_track_path(candidates: &[String], is_file: &[bool], stored: Option<&str>, name: &str) -> (r: Result<String, String>)
    requires
        candidates@.len() == is_file@.len(),
    ensures
        match r {
            Ok(p) => first_existing(crate::text::str_views(candidates@), is_file@, 0) == Some(p@),
            Err(e) => first_existing(crate::text::str_views(candidates@), is_file@, 0) is None
                && e@ == missing_track_message(name@, opt_view(stored)),
        },
{
    let ghost cv = crate::text::str_views(candidates@);
    let mut i: usize = 0;
    while i < candidates.len()
        invariant
            i <= candidates@.len() == is_file@.len(),
            cv == crate::text::str_views(candidates@),
            first_existing(cv, is_file@, i as int) == first_existing(cv, is_file@, 0),
        decreases candidates@.len() - i,
    {
        if is_file[i] {
            return Ok(candidates[i].clone());
        }
        i += 1;
    }
    let mut msg = String::new();
    match stored {
        Some(p) => {
            msg.append("missing trajectory ");
            msg.append(name);
            msg.append(" (");
            msg.append(p);
            msg.append(")");
        },
        None => {
            msg.append("cannot restore ");
            msg.append(name);
            msg.append(": no file path stored");
        },
    }
    Err(msg)
}

// ---------------------------------------------------------------------
// The open mission
// ---------------------------------------------------------------------

/// The mission being edited: where it is saved (if anywhere), its name, and
/// whether it has changes not yet saved.
#[derive(Debug, Clone)]
pub struct MissionSession {
    pub path: Option<String>,
    pub name: String,
    pub dirty: bool,
}

/// A session as values: path, name, unsaved changes.
pub type SessionView = (Option<Seq<char>>, Seq<char>, bool);

impl View for MissionSession {
    type V = SessionView;

    open spec fn view(&self) -> SessionView {
        (
            match self.path {
                Some(p) => Some(p@),
                None => None,
            },
            self.name@,
            self.dirty,
        )
    }
}

impl Default for MissionSession {
    /// A new, unnamed, unsaved mission.
    fn default() -> (s: Self)
        ensures
            s@ == (None::<Seq<char>>, untitled(), false),
    {
        MissionSession { path: None, name: String::from_str("Untitled mission"), dirty: false }
    }
}

/// The session after renaming to `name`: the name is normalised, and the
/// mission becomes dirty when the name changes.
pub open spec fn renamed(s: SessionView, name: Seq<char>) -> SessionView {
    let n = mission_name(name);
    if n == s.1 {
        s
    } else {
        (s.0, n, true)
    }
}

/// The session after the tracks or the risk model changed.
pub open spec fn store_changed(s: SessionView) -> SessionView {
    (s.0, s.1, true)
}

/// The session after the display settings changed: dirty only when the
/// mission has a file.
pub open spec fn ui_changed(s: SessionView) -> SessionView {
    if s.0 is Some {
        (s.0, s.1, true)
    } else {
        s
    }
}

/// The session after the mission was written to `path` under `name`, or
/// read from there.
pub open spec fn settled(name: Seq<char>, path: Seq<char>) -> SessionView {
    (Some(path), name, false)
}

/// The text of the window title.
pub open spec fn title_of(s: SessionView) -> Seq<char> {
    "FauxRRT \u{2014} "@ + s.1 + if s.2 {
        " \u{2022}"@
    } else {
        Seq::empty()
    }
}

impl MissionSession {
    /// Renames the mission (see `renamed`).
    pub fn rename(&mut self, name: &str)
        ensures
            final(self)@ == renamed(old(self)@, name@),
    {
        let n = normalize_mission_name(name);
        let a = chars_of(n.as_str());
        let b = chars_of(self.name.as_str());
        if !crate::text::eq_chars(&a, &b) {
            self.name = n;
            self.dirty = true;
        }
    }

    /// Records that the tracks or the risk model changed.
    pub fn mark_store_changed(&mut self)
        ensures
            final(self)@ == store_changed(old(self)@),
    {
        self.dirty = true;
    }

    /// Records that the display settings changed.
    pub fn mark_ui_changed(&mut self)
        ensures
            final(self)@ == ui_changed(old(self)@),
    {
        if self.path.is_some() {
            self.dirty = true;
        }
    }

    /// Whether a change is saved at once: when the mission has a file.
    pub fn autosaves(&self) -> (b: bool)
        ensures
            b == (self@.0 is Some),
    {
        self.path.is_some()
    }

    /// Where a save writes without asking: the mission's file, unless a
    /// new place is wanted or there is none (`None`: ask the user).
    pub fn save_destination(&self, force_picker: bool) -> (r: Option<String>)
        ensures
            match r {
                Some(p) => !force_picker && self@.0 == Some(p@),
                None => force_picker || self@.0 is None,
            },
    {
        if force_picker {
            return None;
        }
        match &self.path {
            Some(p) => Some(p.clone()),
            None => None,
        }
    }

    /// File name offered when asking where to save.
    pub fn suggested_file_name(&self) -> (r: String)
        ensures
            r@ == sanitized_file_name(self.name@) + ".fauxrrt"@,
    {
        let mut v = chars_of(sanitize_filename(self.name.as_str()).as_str());
        crate::text::append_chars(&mut v, &chars_of(".fauxrrt"));
        string_of(&v)
    }

    /// Records a finished save or load of the mission `name` at `path`.
    pub fn settle(&mut self, name: String, path: String)
        ensures
            final(self)@ == settled(name@, path@),
    {
        self.path = Some(path);
        self.name = name;
        self.dirty = false;
    }

    /// The window title: the mission's name, marked while it has unsaved
    /// changes.
    pub fn title(&self) -> (r: String)
        ensures
            r@ == title_of(self@),
    {
        let mut v = chars_of("FauxRRT \u{2014} ");
        crate::text::append_chars(&mut v, &chars_of(self.name.as_str()));
        if self.dirty {
            crate::text::append_chars(&mut v, &chars_of(" \u{2022}"));
        }
        let r = string_of(&v);
        proof {
            if !self.dirty {
                assert(v@ =~= "FauxRRT \u{2014} "@ + self.name@ + Seq::<char>::empty());
            }
        }
        r
    }
}

/// A picked save path, given the extension `fauxrrt` when it has none.
pub open spec fn mission_file_path(p: Seq<char>) -> Seq<char> {
    if extension_of(p) is None {
        with_extension_of(p, "fauxrrt"@)
    } else {
        p
    }
}

pub fn with_mission_extension(path: &str) -> (r: String)
    ensures
        r@ == mission_file_path(path@),
{
    match path_extension(path) {
        None => {
            proof {
                reveal_strlit("fauxrrt");
            }
            path_with_extension(path, "fauxrrt")
        },
        Some(_) => String::from_str(path),
    }
}

/// Name a mission is saved under: an unnamed mission takes the file's stem.
pub open spec fn saved_name(name: Seq<char>, path: Seq<char>) -> Seq<char> {
    if name == untitled() && file_stem_of(path) is Some {
        file_stem_of(path).unwrap()
    } else {
        name
    }
}

pub fn name_for_saved_file(name: &str, path: &str) -> (r: String)
    ensures
        r@ == saved_name(name@, path@),
{
    let n = chars_of(name);
    let u = chars_of("Untitled mission");
    if crate::text::eq_chars(&n, &u) {
        if let Some(stem) = path_file_stem(path) {
            return stem;
        }
    }
    String::from_str(name)
}

/// Name of a mission read from `path`: the document's name, or the file's
/// stem (else `Untitled mission`) when the document's name is blank.
pub open spec fn loaded_name(doc_name: Seq<char>, path: Seq<char>) -> Seq<char> {
    if trim(doc_name).len() == 0 {
        match file_stem_of(path) {
            Some(s) => s,
            None => untitled(),
        }
    } else {
        doc_name
    }
}

pub fn name_for_loaded_file(doc_name: &str, path: &str) -> (r: String)
    ensures
        r@ == loaded_name(doc_name@, path@),
{
    let t = trim_chars(&chars_of(doc_name));
    if t.len() == 0 {
        match path_file_stem(path) {
            Some(s) => s,
            None => String::from_str("Untitled mission"),
        }
    } else {
        String::from_str(doc_name)
    }
}

/// Renaming twice to the same name is renaming once.
pub proof fn law_rename_idempotent(s: SessionView, name: Seq<char>)
    ensures
        renamed(renamed(s, name), name) == renamed(s, name),
{
}

/// A saved or loaded mission has no unsaved changes and a file.
pub proof fn law_settled_clean(name: Seq<char>, path: Seq<char>)
    ensures
        !settled(name, path).2,
        settled(name, path).0 == Some(path),
{
}

} // verus!
