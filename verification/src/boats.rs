//! Finding boat report files: the sample folder and the `.kml` files of a
//! folder, in path order.

use vstd::prelude::*;
use crate::paths::{extension_of, joined_path, path_extension, path_join};
use crate::rocketpy::first_present;
use crate::text::{chars_of, eq_chars, lower_chars, lower_seq, str_views};

verus! {

// ---------------------------------------------------------------------
// Ordering path text
// ---------------------------------------------------------------------

/// Lexicographic order of texts by character code (the byte order of their
/// UTF-8 encodings).
pub open spec fn text_le(a: Seq<char>, b: Seq<char>) -> bool
    decreases a.len(),
{
    if a.len() == 0 {
        true
    } else if b.len() == 0 {
        false
    } else if a[0] < b[0] {
        true
    } else if a[0] > b[0] {
        false
    } else {
        text_le(a.drop_first(), b.drop_first())
    }
}

pub proof fn lemma_text_le_total(a: Seq<char>, b: Seq<char>)
    ensures
        text_le(a, b) || text_le(b, a),
    decreases a.len(),
{
    if a.len() > 0 && b.len() > 0 && a[0] == b[0] {
        lemma_text_le_total(a.drop_first(), b.drop_first());
    }
}

pub proof fn lemma_text_le_transitive(a: Seq<char>, b: Seq<char>, c: Seq<char>)
    requires
        text_le(a, b),
        text_le(b, c),
    ensures
        text_le(a, c),
    decreases a.len(),
{
    if a.len() > 0 && b.len() > 0 && c.len() > 0 && a[0] == b[0] && b[0] == c[0] {
        lemma_text_le_transitive(a.drop_first(), b.drop_first(), c.drop_first());
    }
}

fn text_le_exec(a: &[char], b: &[char]) -> (r: bool)
    ensures
        r == text_le(a@, b@),
{
    let mut i: usize = 0;
    assert(a@.subrange(0, a@.len() as int) =~= a@);
    assert(b@.subrange(0, b@.len() as int) =~= b@);
    while i < a.len() && i < b.len()
        invariant
            i <= a@.len(),
            i <= b@.len(),
            a@.subrange(0, i as int) == b@.subrange(0, i as int),
            text_le(a@, b@) == text_le(a@.subrange(i as int, a@.len() as int), b@.subrange(
                i as int,
                b@.len() as int,
            )),
        decreases a@.len() - i,
    {
        let x = a[i];
        let y = b[i];
        let ghost ra = a@.subrange(i as int, a@.len() as int);
        let ghost rb = b@.subrange(i as int, b@.len() as int);
        assert(ra[0] == a@[i as int] && rb[0] == b@[i as int]);
        if x < y {
            return true;
        }
        if x > y {
            return false;
        }
        assert(ra.drop_first() =~= a@.subrange(i + 1, a@.len() as int));
        assert(rb.drop_first() =~= b@.subrange(i + 1, b@.len() as int));
        assert(a@.subrange(0, i + 1) =~= a@.subrange(0, i as int).push(a@[i as int]));
        assert(b@.subrange(0, i + 1) =~= b@.subrange(0, i as int).push(b@[i as int]));
        i += 1;
    }
    i == a.len()
}

/// Each entry is ordered before the next.
pub open spec fn sorted_texts(s: Seq<Seq<char>>) -> bool {
    forall|i: int| 0 <= i < s.len() - 1 ==> text_le(#[trigger] s[i], s[i + 1])
}

/// Sorts path texts by `text_le`.
pub fn sort_texts(v: Vec<String>) -> (r: Vec<String>)
    ensures
        sorted_texts(str_views(r@)),
        str_views(r@).to_multiset() == str_views(v@).to_multiset(),
{
    let mut out: Vec<String> = Vec::new();
    let mut keys: Vec<Vec<char>> = Vec::new();
    let mut i: usize = 0;
    assert(str_views(v@).take(0) =~= Seq::<Seq<char>>::empty());
    assert(str_views(out@) =~= Seq::<Seq<char>>::empty());
    while i < v.len()
        invariant
            i <= v@.len(),
            keys@.len() == out@.len(),
            forall|k: int| 0 <= k < keys@.len() ==> (#[trigger] keys@[k])@ == out@[k]@,
            sorted_texts(str_views(out@)),
            str_views(out@).to_multiset() == str_views(v@).take(i as int).to_multiset(),
        decreases v@.len() - i,
    {
        let key = chars_of(v[i].as_str());
        let mut j: usize = out.len();
        while j > 0 && !text_le_exec(&keys[j - 1], &key)
            invariant
                j <= out@.len(),
                keys@.len() == out@.len(),
                forall|k: int| 0 <= k < keys@.len() ==> (#[trigger] keys@[k])@ == out@[k]@,
                key@ == v@[i as int]@,
                forall|k: int| j <= k < out@.len() ==> !text_le(#[trigger] str_views(out@)[k], key@),
            decreases j,
        {
            j -= 1;
        }
        let ghost before = str_views(out@);
        proof {
            if j > 0 {
                assert(text_le(before[j - 1], key@));
            }
            if j < before.len() {
                assert(!text_le(before[j as int], key@));
                lemma_text_le_total(before[j as int], key@);
            }
        }
        out.insert(j, v[i].clone());
        keys.insert(j, key);
        let ghost after = str_views(out@);
        assert(after =~= before.insert(j as int, v@[i as int]@));
        proof {
            assert forall|k: int| 0 <= k < after.len() - 1 implies text_le(#[trigger] after[k], after[k + 1]) by {
                if k + 1 < j {
                    assert(after[k] == before[k] && after[k + 1] == before[k + 1]);
                } else if k + 1 == j {
                    assert(after[k] == before[k]);
                } else if k == j {
                    assert(after[k + 1] == before[k]);
                } else {
                    assert(after[k] == before[k - 1] && after[k + 1] == before[k]);
                }
            }
            vstd::seq_lib::to_multiset_insert(before, j as int, v@[i as int]@);
            assert(str_views(v@).take(i + 1) =~= str_views(v@).take(i as int).push(v@[i as int]@));
            str_views(v@).take(i as int).to_multiset_ensures();
        }
        i += 1;
    }
    assert(str_views(v@).take(v@.len() as int) =~= str_views(v@));
    out
}

/// In a sorted list every entry is ordered before every later one.
pub proof fn law_sorted_everywhere(s: Seq<Seq<char>>, i: int, j: int)
    requires
        sorted_texts(s),
        0 <= i <= j < s.len(),
    ensures
        text_le(s[i], s[j]),
    decreases j - i,
{
    if i == j {
        lemma_text_le_reflexive(s[i]);
    } else {
        law_sorted_everywhere(s, i, j - 1);
        lemma_text_le_transitive(s[i], s[j - 1], s[j]);
    }
}

proof fn lemma_text_le_reflexive(a: Seq<char>)
    ensures
        text_le(a, a),
    decreases a.len(),
{
    if a.len() > 0 {
        lemma_text_le_reflexive(a.drop_first());
    }
}

// ---------------------------------------------------------------------
// Boat report files
// ---------------------------------------------------------------------

/// A path with the extension `kml`, in any case.
pub open spec fn has_kml_extension(p: Seq<char>) -> bool {
    match extension_of(p) {
        Some(e) => lower_seq(e) == "kml"@,
        None => false,
    }
}

/// The entries of `ps` with a `kml` extension, in order.
pub open spec fn kml_entries(ps: Seq<Seq<char>>) -> Seq<Seq<char>>
    decreases ps.len(),
{
    if ps.len() == 0 {
        Seq::empty()
    } else {
        let w = kml_entries(ps.drop_last());
        if has_kml_extension(ps.last()) {
            w.push(ps.last())
        } else {
            w
        }
    }
}

fn is_kml_file(path: &str) -> (r: bool)
    ensures
        r == has_kml_extension(path@),
{
    match path_extension(path) {
        Some(e) => {
            let l = lower_chars(&chars_of(e.as_str()));
            let k = chars_of("kml");
            eq_chars(&l, &k)
        },
        None => false,
    }
}

/// The boat reports among the entries of one folder (as listed), sorted by
/// path.
pub fn collect_kml_files(entries: Vec<String>) -> (r: Vec<String>)
    ensures
        sorted_texts(str_views(r@)),
        str_views(r@).to_multiset() == kml_entries(str_views(entries@)).to_multiset(),
{
    let ghost es = str_views(entries@);
    let mut kept: Vec<String> = Vec::new();
    let mut i: usize = 0;
    while i < entries.len()
        invariant
            i <= entries@.len(),
            es == str_views(entries@),
            str_views(kept@) == kml_entries(es.take(i as int)),
        decreases entries@.len() - i,
    {
        assert(es.take(i + 1).drop_last() =~= es.take(i as int));
        assert(es.take(i + 1).last() == es[i as int]);
        if is_kml_file(entries[i].as_str()) {
            let ghost o = str_views(kept@);
            kept.push(entries[i].clone());
            assert(str_views(kept@) =~= o.push(es[i as int]));
        }
        i += 1;
    }
    assert(es.take(entries@.len() as int) =~= es);
    sort_texts(kept)
}

/// Folders that may hold the sample boat reports, in order: in and above
/// the working folder, next to and above the executable, and beside the
/// sources.
pub open spec fn sample_boat_candidates(
    manifest: Seq<char>,
    cwd: Option<Seq<char>>,
    exe_dir: Option<Seq<char>>,
) -> Seq<Seq<char>> {
    let here = |d: Seq<char>| joined_path(joined_path(d, "samples"@), "boats"@);
    let above = |d: Seq<char>| joined_path(joined_path(joined_path(d, ".."@), "samples"@), "boats"@);
    let from_cwd: Seq<Seq<char>> = match cwd {
        Some(c) => seq![here(c), above(c)],
        None => Seq::empty(),
    };
    let from_exe: Seq<Seq<char>> = match exe_dir {
        Some(d) => seq![here(d), above(d)],
        None => Seq::empty(),
    };
    from_cwd + from_exe + seq![above(manifest)]
}

fn samples_in(d: &str) -> (r: String)
    ensures
        r@ == joined_path(joined_path(d@, "samples"@), "boats"@),
{
    let s = path_join(d, "samples");
    path_join(s.as_str(), "boats")
}

fn samples_above(d: &str) -> (r: String)
    ensures
        r@ == joined_path(joined_path(joined_path(d@, ".."@), "samples"@), "boats"@),
{
    let up = path_join(d, "..");
    samples_in(up.as_str())
}

/// The candidate folders of the sample boat reports.
pub fn sample_boat_dirs(manifest: &str, cwd: Option<&str>, exe_dir: Option<&str>) -> (r: Vec<String>)
    ensures
        str_views(r@) == sample_boat_candidates(
            manifest@,
            match cwd {
                Some(c) => Some(c@),
                None => None,
            },
            match exe_dir {
                Some(d) => Some(d@),
                None => None,
            },
        ),
{
    let mut out: Vec<String> = Vec::new();
    if let Some(c) = cwd {
        out.push(samples_in(c));
        out.push(samples_above(c));
    }
    let ghost first = str_views(out@);
    if let Some(d) = exe_dir {
        out.push(samples_in(d));
        out.push(samples_above(d));
    }
    let ghost second = str_views(out@);
    out.push(samples_above(manifest));
    proof {
        let here = |d: Seq<char>| joined_path(joined_path(d, "samples"@), "boats"@);
        let above = |d: Seq<char>|
            joined_path(joined_path(joined_path(d, ".."@), "samples"@), "boats"@);
        let a: Seq<Seq<char>> = match cwd {
            Some(c) => seq![here(c@), above(c@)],
            None => Seq::empty(),
        };
        let b: Seq<Seq<char>> = match exe_dir {
            Some(d) => seq![here(d@), above(d@)],
            None => Seq::empty(),
        };
        assert(first =~= a);
        assert(second =~= a + b);
        assert(str_views(out@) =~= a + b + seq![above(manifest@)]);
    }
    out
}

/// The sample boat folder: the first candidate that is a folder, given that
/// test for each candidate.
pub fn sample_boats_dir(candidates: &[String], is_dir: &[bool]) -> (r: Option<String>)
    requires
        candidates@.len() == is_dir@.len(),
    ensures
        match first_present(is_dir@, 0) {
            Some(i) => r matches Some(p) && p@ == candidates@[i as int]@,
            None => r is None,
        },
{
    let mut i: usize = 0;
    while i < is_dir.len()
        invariant
            i <= is_dir@.len() == candidates@.len(),
            first_present(is_dir@, i as int) == first_present(is_dir@, 0),
        decreases is_dir@.len() - i,
    {
        if is_dir[i] {
            return Some(candidates[i].clone());
        }
        i += 1;
    }
    None
}

} // verus!
