//! The parts of wind-profile fetching that are text: which hourly series are
//! requested from the archive, and which hourly sample is read.

use vstd::prelude::*;
use crate::text::{append_chars, chars_of, contains_seq, dec, dec_chars, find_seq, string_of};

verus! {

/// Hour (UTC) used when a historical wind request names none.
pub fn default_hour() -> (h: u8)
    ensures
        h == 12,
{
    12
}

/// Pressure levels, in hPa, whose winds are requested.
pub open spec fn pressure_levels() -> Seq<u64> {
    seq![950, 925, 900, 850, 800, 700, 600, 500, 400, 300, 250, 200, 150, 100, 70, 50, 30]
}

/// Series requested at the surface: speed and direction at 10 m and 100 m.
pub open spec fn surface_params() -> Seq<Seq<char>> {
    seq!["wind_speed_10m"@, "wind_direction_10m"@, "wind_speed_100m"@, "wind_direction_100m"@]
}

/// Series requested at one pressure level.
pub open spec fn level_params(hpa: nat) -> Seq<Seq<char>> {
    seq![
        "wind_speed_"@ + dec(hpa) + "hPa"@,
        "wind_direction_"@ + dec(hpa) + "hPa"@,
        "geopotential_height_"@ + dec(hpa) + "hPa"@,
    ]
}

/// Series for the first `n` pressure levels, level by level.
pub open spec fn levels_params(n: nat) -> Seq<Seq<char>>
    decreases n,
{
    if n == 0 {
        Seq::empty()
    } else {
        levels_params((n - 1) as nat) + level_params(pressure_levels()[n - 1] as nat)
    }
}

/// Every series requested, surface first.
pub open spec fn param_names() -> Seq<Seq<char>> {
    surface_params() + levels_params(pressure_levels().len())
}

/// The names joined with `,`.
pub open spec fn comma_joined(ns: Seq<Seq<char>>) -> Seq<char>
    decreases ns.len(),
{
    if ns.len() == 0 {
        Seq::empty()
    } else if ns.len() == 1 {
        ns[0]
    } else {
        comma_joined(ns.drop_last()) + seq![','] + ns.last()
    }
}

fn push_name(names: &mut Vec<Vec<char>>, head: &str, hpa: u64)
    ensures
        final(names)@.len() == old(names)@.len() + 1,
        forall|i: int| 0 <= i < old(names)@.len() ==> final(names)@[i] == old(names)@[i],
        final(names)@[old(names)@.len() as int]@ == head@ + dec(hpa as nat) + "hPa"@,
{
    let mut n = chars_of(head);
    let d = dec_chars(hpa);
    append_chars(&mut n, &d);
    let tail = chars_of("hPa");
    append_chars(&mut n, &tail);
    names.push(n);
}

/// The `hourly` query parameter of a wind-archive request.
pub fn hourly_params() -> (r: String)
    ensures
        r@ == comma_joined(param_names()),
{
    let mut names: Vec<Vec<char>> = Vec::new();
    names.push(chars_of("wind_speed_10m"));
    names.push(chars_of("wind_direction_10m"));
    names.push(chars_of("wind_speed_100m"));
    names.push(chars_of("wind_direction_100m"));
    assert(crate::text::views(names@) =~= surface_params());
    let levels: [u64; 17] = [950, 925, 900, 850, 800, 700, 600, 500, 400, 300, 250, 200, 150, 100, 70, 50, 30];
    assert(levels@ =~= pressure_levels());
    let mut k: usize = 0;
    while k < levels.len()
        invariant
            k <= levels@.len(),
            levels@ == pressure_levels(),
            crate::text::views(names@) == surface_params() + levels_params(k as nat),
        decreases levels@.len() - k,
    {
        let ghost before = crate::text::views(names@);
        let hpa = levels[k];
        push_name(&mut names, "wind_speed_", hpa);
        push_name(&mut names, "wind_direction_", hpa);
        push_name(&mut names, "geopotential_height_", hpa);
        assert(crate::text::views(names@) =~= before + level_params(hpa as nat));
        assert(levels_params((k + 1) as nat) == levels_params(k as nat) + level_params(
            pressure_levels()[k as int] as nat,
        ));
        assert(surface_params() + levels_params((k + 1) as nat) =~= before + level_params(
            hpa as nat,
        ));
        k += 1;
    }
    let ghost all = crate::text::views(names@);
    let mut out: Vec<char> = Vec::new();
    let mut i: usize = 0;
    while i < names.len()
        invariant
            i <= names@.len(),
            all == crate::text::views(names@),
            out@ == comma_joined(all.take(i as int)),
        decreases names@.len() - i,
    {
        assert(all.take(i + 1).drop_last() =~= all.take(i as int));
        assert(all.take(i + 1).last() == all[i as int]);
        if i > 0 {
            out.push(',');
        }
        append_chars(&mut out, &names[i]);
        proof {
            if i == 0 {
                assert(all.take(1).len() == 1);
                assert(all.take(1)[0] == all[0]);
                assert(out@ =~= all[0]);
            } else {
                assert(out@ =~= comma_joined(all.take(i as int)) + seq![','] + all[i as int]);
            }
        }
        i += 1;
    }
    assert(all.take(names@.len() as int) =~= all);
    string_of(&out)
}

/// `hh` with at least two digits.
pub open spec fn two_digits(h: nat) -> Seq<char> {
    if h < 10 {
        seq!['0'] + dec(h)
    } else {
        dec(h)
    }
}

/// What a timestamp of the wanted hour contains: `T`, the hour, `:`.
pub open spec fn hour_needle(h: nat) -> Seq<char> {
    seq!['T'] + two_digits(h) + seq![':']
}

/// First sample whose timestamp is text holding the hour's needle.
pub open spec fn hour_index(times: Seq<Option<Seq<char>>>, h: nat, i: int) -> Option<usize>
    decreases times.len() - i,
{
    if i < 0 || i >= times.len() {
        None
    } else if times[i] matches Some(t) && find_seq(t, hour_needle(h), 0) is Some {
        Some(i as usize)
    } else {
        hour_index(times, h, i + 1)
    }
}

pub open spec fn time_views(times: Seq<Option<String>>) -> Seq<Option<Seq<char>>> {
    Seq::new(
        times.len(),
        |i: int|
            match times[i] {
                Some(s) => Some(s@),
                None => None,
            },
    )
}

/// Index of the hourly sample at `hour_utc`; `times` holds each timestamp
/// that is a string.
pub fn pick_hour(times: &[Option<String>], hour_utc: u8) -> (r: Option<usize>)
    ensures
        r == hour_index(time_views(times@), hour_utc as nat, 0),
{
    let mut needle: Vec<char> = Vec::new();
    needle.push('T');
    if hour_utc < 10 {
        needle.push('0');
    }
    let d = dec_chars(hour_utc as u64);
    append_chars(&mut needle, &d);
    needle.push(':');
    assert(needle@ =~= hour_needle(hour_utc as nat));
    let ghost tv = time_views(times@);
    let mut i: usize = 0;
    while i < times.len()
        invariant
            i <= times@.len(),
            tv == time_views(times@),
            needle@ == hour_needle(hour_utc as nat),
            hour_index(tv, hour_utc as nat, i as int) == hour_index(tv, hour_utc as nat, 0),
        decreases times@.len() - i,
    {
        if let Some(t) = &times[i] {
            let cs = chars_of(t.as_str());
            if contains_seq(&cs, &needle) {
                return Some(i);
            }
        }
        i += 1;
    }
    None
}

proof fn lemma_levels_params_len(n: nat)
    ensures
        levels_params(n).len() == 3 * n,
    decreases n,
{
    if n > 0 {
        lemma_levels_params_len((n - 1) as nat);
    }
}

/// The request names four surface series and three series for each of the
/// seventeen pressure levels.
pub proof fn law_param_count()
    ensures
        param_names().len() == 4 + 3 * 17,
{
    lemma_levels_params_len(17);
}

/// What the archive's reply leads to before its series are read: the
/// service's error (its reason, or a generic one), a missing `hourly`
/// block, missing timestamps, no sample at the hour, or the index of that
/// sample.
pub open spec fn reply_outcome(
    error_flag: Option<bool>,
    reason: Option<Seq<char>>,
    has_hourly: bool,
    times: Option<Seq<Option<Seq<char>>>>,
    hour_utc: nat,
) -> Result<usize, Seq<char>> {
    if error_flag == Some(true) {
        Err(
            match reason {
                Some(r) => r,
                None => "Open-Meteo error"@,
            },
        )
    } else if !has_hourly {
        Err("wind response missing hourly data"@)
    } else {
        match times {
            None => Err("wind response missing times"@),
            Some(ts) => match hour_index(ts, hour_utc, 0) {
                Some(i) => Ok(i),
                None => Err("no wind sample at that hour"@),
            },
        }
    }
}

/// Checks the archive's reply: `error_flag` is its boolean `error` field,
/// `reason` its text `reason`, `has_hourly` whether it has an `hourly`
/// block, and `times` that block's `time` array (each entry that is text),
/// if it has one. Gives the index of the sample at `hour_utc`.
pub fn check_reply(
    error_flag: Option<bool>,
    reason: Option<String>,
    has_hourly: bool,
    times: Option<Vec<Option<String>>>,
    hour_utc: u8,
) -> (r: Result<usize, String>)
    ensures
        match r {
            Ok(i) => reply_outcome(
                error_flag,
                match reason {
                    Some(s) => Some(s@),
                    None => None,
                },
                has_hourly,
                match times {
                    Some(ts) => Some(time_views(ts@)),
                    None => None,
                },
                hour_utc as nat,
            ) == Ok::<usize, Seq<char>>(i),
            Err(e) => reply_outcome(
                error_flag,
                match reason {
                    Some(s) => Some(s@),
                    None => None,
                },
                has_hourly,
                match times {
                    Some(ts) => Some(time_views(ts@)),
                    None => None,
                },
                hour_utc as nat,
            ) == Err::<usize, Seq<char>>(e@),
        },
{
    if error_flag == Some(true) {
        return Err(
            match reason {
                Some(r) => r,
                None => String::from_str("Open-Meteo error"),
            },
        );
    }
    if !has_hourly {
        return Err(String::from_str("wind response missing hourly data"));
    }
    match times {
        None => Err(String::from_str("wind response missing times")),
        Some(ts) => match pick_hour(&ts, hour_utc) {
            Some(i) => Ok(i),
            None => Err(String::from_str("no wind sample at that hour")),
        },
    }
}

} // verus!
