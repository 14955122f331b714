//! Track bookkeeping that is free of geometry: how many points a track may
//! show, and the names given to new tracks.

use vstd::prelude::*;
use crate::text::{
    append_chars, chars_of, dec, dec_chars, eq_chars, lower_chars, lower_seq, str_views,
    string_of, trim, trim_chars,
};
use crate::wind::two_digits;

verus! {

/// Points shown for all tracks together.
pub const DISPLAY_TOTAL: usize = 360000;

/// Fewest points shown per track.
pub const DISPLAY_MIN: usize = 24;

/// Most points shown per track.
pub const DISPLAY_MAX: usize = 720;

/// Points each track shows when `n` tracks are loaded: the total shared out
/// (at least one track counted), kept between the two bounds.
pub open spec fn budget_for(n: nat) -> int {
    let share = DISPLAY_TOTAL as int / (if n == 0 { 1 } else { n as int });
    if share < DISPLAY_MIN {
        DISPLAY_MIN as int
    } else if share > DISPLAY_MAX {
        DISPLAY_MAX as int
    } else {
        share
    }
}

/// Display points per track when `track_count` tracks are loaded.
pub fn display_budget(track_count: usize) -> (r: usize)
    ensures
        r == budget_for(track_count as nat),
{
    let n = if track_count < 1 {
        1
    } else {
        track_count
    };
    let share = DISPLAY_TOTAL / n;
    if share < DISPLAY_MIN {
        DISPLAY_MIN
    } else if share > DISPLAY_MAX {
        DISPLAY_MAX
    } else {
        share
    }
}

/// The display budget always lies between the two bounds.
pub proof fn law_budget_bounds(n: nat)
    ensures
        DISPLAY_MIN <= budget_for(n) <= DISPLAY_MAX,
{
}

/// More tracks never give a track more display points.
pub proof fn law_budget_monotone(a: nat, b: nat)
    requires
        a <= b,
    ensures
        budget_for(b) <= budget_for(a),
{
    let da: int = if a == 0 { 1 } else { a as int };
    let db: int = if b == 0 { 1 } else { b as int };
    vstd::arithmetic::div_mod::lemma_div_is_ordered_by_denominator(DISPLAY_TOTAL as int, da, db);
}

/// While every track can get at least the smallest share, the tracks'
/// display points together stay within the global total.
pub proof fn law_budget_total(n: nat)
    requires
        1 <= n <= DISPLAY_TOTAL / DISPLAY_MIN,
    ensures
        budget_for(n) * n <= DISPLAY_TOTAL,
{
    let t = DISPLAY_TOTAL as int;
    let share = t / (n as int);
    assert(DISPLAY_TOTAL / DISPLAY_MIN == 15000);
    assert(t / 15000 == 24);
    vstd::arithmetic::div_mod::lemma_div_is_ordered_by_denominator(t, n as int, 15000);
    assert(share >= DISPLAY_MIN);
    assert(budget_for(n) <= share);
    vstd::arithmetic::div_mod::lemma_fundamental_div_mod(t, n as int);
    vstd::arithmetic::div_mod::lemma_mod_pos_bound(t, n as int);
    let b = budget_for(n);
    assert(b * n <= share * n) by (nonlinear_arith)
        requires
            b <= share,
            n >= 1,
    ;
    assert(share * n <= t) by (nonlinear_arith)
        requires
            t == n * share + t % (n as int),
            t % (n as int) >= 0,
    ;
}

/// Prefix of new track names: the given prefix trimmed, `Generated` when
/// nothing is left.
pub open spec fn name_prefix(prefix: Seq<char>) -> Seq<char> {
    if trim(prefix).len() == 0 {
        "Generated"@
    } else {
        trim(prefix)
    }
}

/// The `i`-th candidate name: prefix, `-`, `i` with at least two digits.
pub open spec fn candidate_name(prefix: Seq<char>, i: nat) -> Seq<char> {
    name_prefix(prefix) + seq!['-'] + two_digits(i)
}

/// Whether `name` equals one of `used` ignoring ASCII case.
pub open spec fn name_taken(used: Seq<Seq<char>>, name: Seq<char>) -> bool {
    exists|k: int| 0 <= k < used.len() && lower_seq(#[trigger] used[k]) == lower_seq(name)
}

/// First free candidate number at or after `i` (up to 9999).
pub open spec fn first_free(used: Seq<Seq<char>>, prefix: Seq<char>, i: nat) -> Option<nat>
    decreases 10000 - i,
{
    if i > 9999 {
        None
    } else if !name_taken(used, candidate_name(prefix, i)) {
        Some(i)
    } else {
        first_free(used, prefix, i + 1)
    }
}

/// Name for a new track of an object whose tracks are named `used`: the
/// first free `prefix-NN` from 1 to 9999, compared ignoring ASCII case;
/// past that, `prefix-` and `fallback`.
pub open spec fn next_name(used: Seq<Seq<char>>, prefix: Seq<char>, fallback: nat) -> Seq<char> {
    match first_free(used, prefix, 1) {
        Some(i) => candidate_name(prefix, i),
        None => name_prefix(prefix) + seq!['-'] + dec(fallback),
    }
}

fn taken(used_lower: &Vec<Vec<char>>, name_lower: &[char]) -> (r: bool)
    ensures
        r == exists|k: int| 0 <= k < used_lower@.len() && #[trigger] used_lower@[k]@ == name_lower@,
{
    let mut k: usize = 0;
    while k < used_lower.len()
        invariant
            k <= used_lower@.len(),
            forall|m: int| 0 <= m < k ==> used_lower@[m]@ != name_lower@,
        decreases used_lower@.len() - k,
    {
        if eq_chars(&used_lower[k], name_lower) {
            return true;
        }
        k += 1;
    }
    false
}

fn candidate(p: &[char], i: u64) -> (r: Vec<char>)
    ensures
        r@ == p@ + seq!['-'] + two_digits(i as nat),
{
    let mut r: Vec<char> = Vec::new();
    append_chars(&mut r, p);
    r.push('-');
    if i < 10 {
        r.push('0');
    }
    let d = dec_chars(i);
    append_chars(&mut r, &d);
    proof {
        if i < 10 {
            assert(r@ =~= p@ + seq!['-'] + (seq!['0'] + dec(i as nat)));
        } else {
            assert(r@ =~= p@ + seq!['-'] + dec(i as nat));
        }
    }
    r
}

/// Name for a new track: see `next_name`. `used` holds the names of the
/// object's tracks; `fallback` is the number used when all of 1 to 9999
/// are taken.
pub fn next_track_name(used: &[String], prefix: &str, fallback: u64) -> (r: String)
    ensures
        r@ == next_name(str_views(used@), prefix@, fallback as nat),
{
    let ghost us = str_views(used@);
    let t = trim_chars(&chars_of(prefix));
    let p = if t.len() == 0 {
        chars_of("Generated")
    } else {
        t
    };
    assert(p@ == name_prefix(prefix@));
    let mut used_lower: Vec<Vec<char>> = Vec::new();
    let mut k: usize = 0;
    while k < used.len()
        invariant
            k <= used@.len(),
            us == str_views(used@),
            used_lower@.len() == k,
            forall|m: int| 0 <= m < k ==> (#[trigger] used_lower@[m])@ == lower_seq(us[m]),
        decreases used@.len() - k,
    {
        used_lower.push(lower_chars(&chars_of(used[k].as_str())));
        k += 1;
    }
    let mut i: u64 = 1;
    while i <= 9999
        invariant
            1 <= i <= 10000,
            us == str_views(used@),
            p@ == name_prefix(prefix@),
            used_lower@.len() == us.len(),
            forall|m: int| 0 <= m < us.len() ==> (#[trigger] used_lower@[m])@ == lower_seq(us[m]),
            first_free(us, prefix@, i as nat) == first_free(us, prefix@, 1),
        decreases 10000 - i,
    {
        let name = candidate(&p, i);
        let low = lower_chars(&name);
        let hit = taken(&used_lower, &low);
        proof {
            assert(name@ == candidate_name(prefix@, i as nat));
            if hit {
                let k = choose|k: int| 0 <= k < used_lower@.len() && #[trigger] used_lower@[k]@ == low@;
                assert(lower_seq(us[k]) == lower_seq(name@));
                assert(name_taken(us, candidate_name(prefix@, i as nat)));
            } else {
                assert forall|k: int| 0 <= k < us.len() implies lower_seq(#[trigger] us[k])
                    != lower_seq(name@) by {
                    assert(used_lower@[k]@ == lower_seq(us[k]));
                }
                assert(!name_taken(us, candidate_name(prefix@, i as nat)));
            }
        }
        if !hit {
            return string_of(&name);
        }
        i += 1;
    }
    let mut r = p;
    r.push('-');
    let d = dec_chars(fallback);
    append_chars(&mut r, &d);
    assert(r@ =~= name_prefix(prefix@) + seq!['-'] + dec(fallback as nat));
    string_of(&r)
}

proof fn lemma_first_free(used: Seq<Seq<char>>, prefix: Seq<char>, i: nat)
    ensures
        first_free(used, prefix, i) matches Some(j) ==> i <= j <= 9999 && !name_taken(
            used,
            candidate_name(prefix, j),
        ),
    decreases 10000 - i,
{
    if i <= 9999 && name_taken(used, candidate_name(prefix, i)) {
        lemma_first_free(used, prefix, i + 1);
    }
}

/// A new track's name differs, ignoring ASCII case, from every name of the
/// object's tracks whenever one of `prefix-01` to `prefix-9999` is free.
pub proof fn law_next_name_is_free(used: Seq<Seq<char>>, prefix: Seq<char>, fallback: nat)
    requires
        exists|i: nat| 1 <= i <= 9999 && !name_taken(used, #[trigger] candidate_name(prefix, i)),
    ensures
        !name_taken(used, next_name(used, prefix, fallback)),
{
    lemma_first_free(used, prefix, 1);
    let w = choose|i: nat| 1 <= i <= 9999 && !name_taken(used, #[trigger] candidate_name(prefix, i));
    lemma_first_free_finds(used, prefix, 1, w);
}

proof fn lemma_first_free_finds(used: Seq<Seq<char>>, prefix: Seq<char>, i: nat, w: nat)
    requires
        i <= w <= 9999,
        !name_taken(used, candidate_name(prefix, w)),
    ensures
        first_free(used, prefix, i) is Some,
    decreases w - i,
{
    if i < w && name_taken(used, candidate_name(prefix, i)) {
        lemma_first_free_finds(used, prefix, i + 1, w);
    }
}

/// Which failure mode loaded files go to.
#[derive(Debug, Clone)]
pub enum LoadMode {
    /// The failure mode the user picked.
    Mode(u64),
    /// No object: the files stay unassigned.
    Unassigned,
    /// The mode of this object with this name, made if missing.
    Named(u64, String),
}

pub open spec fn no_mode_name() -> Seq<char> {
    "enter a mode name, then load files"@
}

/// Chooses where loaded files go: the picked failure mode; none without an
/// object; else the object's mode named by the trimmed `mode_name`, which
/// must not be blank.
pub fn resolve_load_mode(object_id: Option<u64>, failure_mode_id: Option<u64>, mode_name: Option<&str>) -> (r: Result<LoadMode, String>)
    ensures
        match r {
            Ok(LoadMode::Mode(id)) => failure_mode_id == Some(id),
            Ok(LoadMode::Unassigned) => failure_mode_id is None && object_id is None,
            Ok(LoadMode::Named(o, n)) => failure_mode_id is None && object_id == Some(o) && (
            mode_name matches Some(m) && n@ == trim(m@) && trim(m@).len() > 0),
            Err(e) => failure_mode_id is None && object_id is Some && e@ == no_mode_name() && (
            mode_name matches Some(m) ==> trim(m@).len() == 0),
        },
{
    if let Some(id) = failure_mode_id {
        return Ok(LoadMode::Mode(id));
    }
    let object = match object_id {
        Some(o) => o,
        None => return Ok(LoadMode::Unassigned),
    };
    match mode_name {
        Some(m) => {
            let t = trim_chars(&chars_of(m));
            if t.len() == 0 {
                Err(String::from_str("enter a mode name, then load files"))
            } else {
                Ok(LoadMode::Named(object, string_of(&t)))
            }
        },
        None => Err(String::from_str("enter a mode name, then load files")),
    }
}

} // verus!
