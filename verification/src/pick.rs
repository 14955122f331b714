//! What a file pick yields: picked files are kept, picked folders are
//! replaced by the trajectory files found below them.

use vstd::prelude::*;
use crate::paths::{extension_of, path_extension};
use crate::text::{chars_of, eq_chars, lower_chars, lower_seq, str_views};

verus! {

/// Most trajectory files taken from one folder.
pub const FOLDER_FILE_LIMIT: usize = 4000;

/// Extensions of columnar trajectory files.
pub open spec fn trajectory_exts() -> Seq<Seq<char>> {
    seq!["txt"@, "csv"@, "tsv"@, "dat"@, "eph"@, "traj"@, "asc"@]
}

/// A path whose extension, ASCII-lower-cased, is a trajectory extension.
pub open spec fn is_trajectory_path(p: Seq<char>) -> bool {
    match extension_of(p) {
        Some(e) => trajectory_exts().contains(lower_seq(e)),
        None => false,
    }
}

/// A path kept by the KML picker: no extension, or `kml` in any case.
pub open spec fn is_kml_pick(p: Seq<char>) -> bool {
    match extension_of(p) {
        Some(e) => lower_seq(e) == "kml"@,
        None => true,
    }
}

/// The trajectory paths among `ps`, in order.
pub open spec fn trajectory_paths(ps: Seq<Seq<char>>) -> Seq<Seq<char>>
    decreases ps.len(),
{
    if ps.len() == 0 {
        Seq::empty()
    } else {
        let w = trajectory_paths(ps.drop_last());
        if is_trajectory_path(ps.last()) {
            w.push(ps.last())
        } else {
            w
        }
    }
}

/// The KML picks among `ps`, in order.
pub open spec fn kml_paths(ps: Seq<Seq<char>>) -> Seq<Seq<char>>
    decreases ps.len(),
{
    if ps.len() == 0 {
        Seq::empty()
    } else {
        let w = kml_paths(ps.drop_last());
        if is_kml_pick(ps.last()) {
            w.push(ps.last())
        } else {
            w
        }
    }
}

/// At most the first `FOLDER_FILE_LIMIT` entries.
pub open spec fn capped(ps: Seq<Seq<char>>) -> Seq<Seq<char>> {
    if ps.len() > FOLDER_FILE_LIMIT {
        ps.take(FOLDER_FILE_LIMIT as int)
    } else {
        ps
    }
}

/// Whether `ext` (without the dot) names a trajectory file, in any case.
fn trajectory_extension(ext: &str) -> (r: bool)
    ensures
        r == trajectory_exts().contains(lower_seq(ext@)),
{
    let e = lower_chars(&chars_of(ext));
    let exts: [&str; 7] = ["txt", "csv", "tsv", "dat", "eph", "traj", "asc"];
    assert(Seq::new(exts@.len(), |i: int| exts@[i]@) =~= trajectory_exts());
    let mut i: usize = 0;
    while i < exts.len()
        invariant
            i <= exts@.len(),
            e@ == lower_seq(ext@),
            Seq::new(exts@.len(), |k: int| exts@[k]@) == trajectory_exts(),
            forall|k: int| 0 <= k < i ==> trajectory_exts()[k] != e@,
        decreases exts@.len() - i,
    {
        let candidate = chars_of(exts[i]);
        if eq_chars(&candidate, &e) {
            assert(trajectory_exts()[i as int] == e@);
            return true;
        }
        i += 1;
    }
    false
}

/// Whether `path` has a trajectory extension.
pub fn has_trajectory_extension(path: &str) -> (r: bool)
    ensures
        r == is_trajectory_path(path@),
{
    match path_extension(path) {
        Some(e) => trajectory_extension(e.as_str()),
        None => false,
    }
}

/// Whether the KML picker keeps `path`.
fn keeps_as_kml(path: &str) -> (r: bool)
    ensures
        r == is_kml_pick(path@),
{
    match path_extension(path) {
        Some(e) => {
            let l = lower_chars(&chars_of(e.as_str()));
            let k = chars_of("kml");
            proof {
                reveal_strlit("kml");
            }
            eq_chars(&l, &k)
        },
        None => true,
    }
}

proof fn lemma_capped_step(w: Seq<Seq<char>>, x: Seq<char>)
    ensures
        capped(w).len() >= FOLDER_FILE_LIMIT ==> capped(w.push(x)) == capped(w),
        capped(w).len() < FOLDER_FILE_LIMIT ==> capped(w) == w && capped(w.push(x)) == w.push(x),
{
    if w.len() >= FOLDER_FILE_LIMIT {
        assert(w.push(x).take(FOLDER_FILE_LIMIT as int) =~= w.take(FOLDER_FILE_LIMIT as int));
    }
}

/// The trajectory files of a folder, given every file found below it in
/// walk order: those with a trajectory extension, at most
/// `FOLDER_FILE_LIMIT` of them.
pub fn collect_trajectory_files(walked: &[String]) -> (r: Vec<String>)
    ensures
        str_views(r@) == capped(trajectory_paths(str_views(walked@))),
{
    let ghost ws = str_views(walked@);
    let mut out: Vec<String> = Vec::new();
    let mut i: usize = 0;
    while i < walked.len()
        invariant
            i <= walked@.len(),
            ws == str_views(walked@),
            str_views(out@) == capped(trajectory_paths(ws.take(i as int))),
        decreases walked@.len() - i,
    {
        let ghost before = trajectory_paths(ws.take(i as int));
        assert(ws.take(i + 1).drop_last() =~= ws.take(i as int));
        assert(ws.take(i + 1).last() == ws[i as int]);
        proof {
            lemma_capped_step(before, ws[i as int]);
        }
        if has_trajectory_extension(walked[i].as_str()) {
            if out.len() < FOLDER_FILE_LIMIT {
                let ghost o = str_views(out@);
                out.push(walked[i].clone());
                assert(str_views(out@) =~= o.push(ws[i as int]));
            }
        }
        i += 1;
    }
    assert(ws.take(walked@.len() as int) =~= ws);
    out
}

/// One picked entry: a file, or a folder together with every file found
/// below it in walk order.
#[derive(Debug, Clone)]
pub enum PickedPath {
    File(String),
    Dir(Vec<String>),
}

/// What a picked entry expands to.
pub open spec fn expansion(p: PickedPath) -> Seq<Seq<char>> {
    match p {
        PickedPath::File(f) => seq![f@],
        PickedPath::Dir(walked) => capped(trajectory_paths(str_views(walked@))),
    }
}

/// The expansions of `ps`, concatenated in order.
pub open spec fn expanded(ps: Seq<PickedPath>) -> Seq<Seq<char>>
    decreases ps.len(),
{
    if ps.len() == 0 {
        Seq::empty()
    } else {
        expanded(ps.drop_last()) + expansion(ps.last())
    }
}

/// Files stay as they are; folders give their trajectory files.
pub fn expand_paths(paths: Vec<PickedPath>) -> (r: Vec<String>)
    ensures
        str_views(r@) == expanded(paths@),
{
    let mut out: Vec<String> = Vec::new();
    let mut i: usize = 0;
    while i < paths.len()
        invariant
            i <= paths@.len(),
            str_views(out@) == expanded(paths@.take(i as int)),
        decreases paths@.len() - i,
    {
        assert(paths@.take(i + 1).drop_last() =~= paths@.take(i as int));
        assert(paths@.take(i + 1).last() == paths@[i as int]);
        let ghost before = str_views(out@);
        match &paths[i] {
            PickedPath::File(f) => {
                out.push(f.clone());
                assert(str_views(out@) =~= before + seq![f@]);
            },
            PickedPath::Dir(walked) => {
                let found = collect_trajectory_files(walked.as_slice());
                let mut k: usize = 0;
                while k < found.len()
                    invariant
                        k <= found@.len(),
                        str_views(out@) == before + str_views(found@).take(k as int),
                    decreases found@.len() - k,
                {
                    let ghost o = str_views(out@);
                    out.push(found[k].clone());
                    assert(str_views(out@) =~= o.push(str_views(found@)[k as int]));
                    assert(str_views(found@).take(k + 1) =~= str_views(found@).take(k as int).push(
                        str_views(found@)[k as int],
                    ));
                    assert(before + str_views(found@).take(k + 1) =~= (before + str_views(
                        found@,
                    ).take(k as int)).push(str_views(found@)[k as int]));
                    k += 1;
                }
                assert(str_views(found@).take(found@.len() as int) =~= str_views(found@));
            },
        }
        i += 1;
    }
    assert(paths@.take(paths@.len() as int) =~= paths@);
    out
}

/// Result of a pick: nothing when cancelled (`None`), the error
/// `empty_err` when the selection holds no trajectory file, else the files.
pub open spec fn pick_result(picked: Option<Seq<PickedPath>>, empty_err: Seq<char>) -> Result<
    Seq<Seq<char>>,
    Seq<char>,
> {
    match picked {
        None => Ok(Seq::empty()),
        Some(ps) => if expanded(ps).len() == 0 {
            Err(empty_err)
        } else {
            Ok(expanded(ps))
        },
    }
}

pub open spec fn picked_view(picked: Option<Vec<PickedPath>>) -> Option<Seq<PickedPath>> {
    match picked {
        Some(v) => Some(v@),
        None => None,
    }
}

pub open spec fn result_view(r: Result<Vec<String>, String>) -> Result<Seq<Seq<char>>, Seq<char>> {
    match r {
        Ok(v) => Ok(str_views(v@)),
        Err(e) => Err(e@),
    }
}

fn finish_pick(picked: Option<Vec<PickedPath>>, empty_err: &str) -> (r: Result<Vec<String>, String>)
    ensures
        result_view(r) == pick_result(picked_view(picked), empty_err@),
{
    match picked {
        None => {
            let v: Vec<String> = Vec::new();
            assert(str_views(v@) =~= Seq::<Seq<char>>::empty());
            Ok(v)
        },
        Some(ps) => {
            let files = expand_paths(ps);
            if files.len() == 0 {
                Err(String::from_str(empty_err))
            } else {
                Ok(files)
            }
        },
    }
}

pub open spec fn no_files_in_selection() -> Seq<char> {
    "no columnar trajectory files in that selection"@
}

pub open spec fn no_files_in_folder() -> Seq<char> {
    "no columnar trajectory files in that folder"@
}

/// Files and folders chosen in the picker (`None`: cancelled), expanded.
pub fn pick_trajectory_sources(picked: Option<Vec<PickedPath>>) -> (r: Result<Vec<String>, String>)
    ensures
        result_view(r) == pick_result(picked_view(picked), no_files_in_selection()),
{
    finish_pick(picked, "no columnar trajectory files in that selection")
}

/// The folder chosen in the folder picker (`None`: cancelled), expanded.
pub fn pick_trajectory_folder(picked: Option<Vec<PickedPath>>) -> (r: Result<Vec<String>, String>)
    ensures
        result_view(r) == pick_result(picked_view(picked), no_files_in_folder()),
{
    finish_pick(picked, "no columnar trajectory files in that folder")
}

pub open spec fn opt_paths(picked: Option<Vec<String>>) -> Option<Seq<Seq<char>>> {
    match picked {
        Some(v) => Some(str_views(v@)),
        None => None,
    }
}

/// Boat reports chosen in the KML picker (`None`: cancelled): those with a
/// `kml` extension in any case, or with none.
pub fn pick_kml_sources(picked: Option<Vec<String>>) -> (r: Result<Vec<String>, String>)
    ensures
        match opt_paths(picked) {
            None => result_view(r) == Ok::<Seq<Seq<char>>, Seq<char>>(Seq::empty()),
            Some(ps) => result_view(r) == Ok::<Seq<Seq<char>>, Seq<char>>(kml_paths(ps)),
        },
{
    match picked {
        None => {
            let v: Vec<String> = Vec::new();
            assert(str_views(v@) =~= Seq::<Seq<char>>::empty());
            Ok(v)
        },
        Some(files) => {
            let ghost ps = str_views(files@);
            let mut out: Vec<String> = Vec::new();
            let mut i: usize = 0;
            while i < files.len()
                invariant
                    i <= files@.len(),
                    ps == str_views(files@),
                    str_views(out@) == kml_paths(ps.take(i as int)),
                decreases files@.len() - i,
            {
                assert(ps.take(i + 1).drop_last() =~= ps.take(i as int));
                assert(ps.take(i + 1).last() == ps[i as int]);
                if keeps_as_kml(files[i].as_str()) {
                    let ghost o = str_views(out@);
                    out.push(files[i].clone());
                    assert(str_views(out@) =~= o.push(ps[i as int]));
                }
                i += 1;
            }
            assert(ps.take(files@.len() as int) =~= ps);
            Ok(out)
        },
    }
}

proof fn lemma_trajectory_paths(ps: Seq<Seq<char>>)
    ensures
        trajectory_paths(ps).len() <= ps.len(),
        forall|i: int|
            0 <= i < trajectory_paths(ps).len() ==> is_trajectory_path(
                #[trigger] trajectory_paths(ps)[i],
            ) && ps.contains(trajectory_paths(ps)[i]),
    decreases ps.len(),
{
    if ps.len() > 0 {
        let init = ps.drop_last();
        lemma_trajectory_paths(init);
        let w = trajectory_paths(init);
        assert forall|i: int| 0 <= i < trajectory_paths(ps).len() implies is_trajectory_path(
            #[trigger] trajectory_paths(ps)[i],
        ) && ps.contains(trajectory_paths(ps)[i]) by {
            if i < w.len() {
                let x = w[i];
                assert(init.contains(x));
                let j = choose|j: int| 0 <= j < init.len() && init[j] == x;
                assert(ps[j] == x);
            } else {
                assert(ps[ps.len() - 1] == ps.last());
            }
        }
    }
}

/// A folder gives at most `FOLDER_FILE_LIMIT` files, each found below it
/// and each with a trajectory extension.
pub proof fn law_folder_files(walked: Seq<Seq<char>>)
    ensures
        capped(trajectory_paths(walked)).len() <= FOLDER_FILE_LIMIT,
        forall|i: int|
            0 <= i < capped(trajectory_paths(walked)).len() ==> is_trajectory_path(
                #[trigger] capped(trajectory_paths(walked))[i],
            ) && walked.contains(capped(trajectory_paths(walked))[i]),
{
    lemma_trajectory_paths(walked);
    let t = trajectory_paths(walked);
    assert forall|i: int| 0 <= i < capped(t).len() implies is_trajectory_path(#[trigger] capped(t)[i])
        && walked.contains(capped(t)[i]) by {
        assert(capped(t)[i] == t[i]);
    }
}

/// Picked files are kept as they are, in order.
pub proof fn law_files_expand_to_themselves(ps: Seq<PickedPath>)
    requires
        forall|i: int| 0 <= i < ps.len() ==> #[trigger] ps[i] is File,
    ensures
        expanded(ps) == Seq::new(ps.len(), |i: int| ps[i]->File_0@),
    decreases ps.len(),
{
    if ps.len() > 0 {
        let init = ps.drop_last();
        assert forall|i: int| 0 <= i < init.len() implies #[trigger] init[i] is File by {
            assert(init[i] == ps[i]);
        }
        law_files_expand_to_themselves(init);
        assert(ps.last() is File);
        assert(expanded(ps) =~= Seq::new(ps.len(), |i: int| ps[i]->File_0@));
    }
}

} // verus!
