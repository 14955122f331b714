//! Character-level text primitives shared by the parsers, each with a
//! specification over `Seq<char>`.

use vstd::prelude::*;

verus! {

// ---------------------------------------------------------------------
// Character classes
// ---------------------------------------------------------------------

/// Unicode `White_Space` (what `char::is_whitespace` tests).
pub open spec fn is_ws(c: char) -> bool {
    let u = c as u32;
    (9 <= u && u <= 13) || u == 32 || u == 0x85 || u == 0xa0 || u == 0x1680 || (0x2000 <= u
        && u <= 0x200a) || u == 0x2028 || u == 0x2029 || u == 0x202f || u == 0x205f || u == 0x3000
}

pub open spec fn is_digit(c: char) -> bool {
    '0' as u32 <= c as u32 && c as u32 <= '9' as u32
}

pub open spec fn is_upper(c: char) -> bool {
    'A' as u32 <= c as u32 && c as u32 <= 'Z' as u32
}

pub open spec fn is_lower(c: char) -> bool {
    'a' as u32 <= c as u32 && c as u32 <= 'z' as u32
}

pub open spec fn is_alnum(c: char) -> bool {
    is_digit(c) || is_upper(c) || is_lower(c)
}

/// ASCII lower-casing of one character (others unchanged).
pub open spec fn lower(c: char) -> char {
    if is_upper(c) {
        ((c as u32) + 32) as char
    } else {
        c
    }
}

pub open spec fn lower_seq(s: Seq<char>) -> Seq<char> {
    Seq::new(s.len(), |i: int| lower(s[i]))
}

pub fn is_whitespace(c: char) -> (b: bool)
    ensures
        b == is_ws(c),
{
    let u = c as u32;
    (9 <= u && u <= 13) || u == 32 || u == 0x85 || u == 0xa0 || u == 0x1680 || (0x2000 <= u
        && u <= 0x200a) || u == 0x2028 || u == 0x2029 || u == 0x202f || u == 0x205f || u == 0x3000
}

pub fn is_ascii_digit(c: char) -> (b: bool)
    ensures
        b == is_digit(c),
{
    '0' as u32 <= c as u32 && c as u32 <= '9' as u32
}

pub fn is_ascii_alnum(c: char) -> (b: bool)
    ensures
        b == is_alnum(c),
{
    let u = c as u32;
    ('0' as u32 <= u && u <= '9' as u32) || ('A' as u32 <= u && u <= 'Z' as u32) || ('a' as u32
        <= u && u <= 'z' as u32)
}

pub fn to_lower(c: char) -> (r: char)
    ensures
        r == lower(c),
{
    let u = c as u32;
    if 'A' as u32 <= u && u <= 'Z' as u32 {
        let b: u8 = (u + 32) as u8;
        let r = b as char;
        assert(r as u32 == u + 32);
        r
    } else {
        c
    }
}

/// ASCII lower-cased copy (`to_ascii_lowercase`).
pub fn lower_chars(s: &[char]) -> (r: Vec<char>)
    ensures
        r@ == lower_seq(s@),
{
    let mut r: Vec<char> = Vec::new();
    let mut i: usize = 0;
    while i < s.len()
        invariant
            i <= s.len(),
            r@.len() == i,
            forall|k: int| 0 <= k < i ==> r@[k] == lower(s@[k]),
        decreases s.len() - i,
    {
        r.push(to_lower(s[i]));
        i += 1;
    }
    assert(r@ =~= lower_seq(s@));
    r
}

// ---------------------------------------------------------------------
// Strings and slices
// ---------------------------------------------------------------------

/// Appends one character to a string.
#[verifier::external_body]
pub(crate) fn push_char(s: &mut String, c: char)
    ensures
        final(s)@ == old(s)@.push(c),
{
    s.push(c);
}

/// The characters of a string slice, in order.
pub fn chars_of(s: &str) -> (v: Vec<char>)
    ensures
        v@ == s@,
{
    let mut v: Vec<char> = Vec::new();
    for c in it: s.chars()
        invariant
            v@ == it.seq().take(it.index() as int),
    {
        v.push(c);
    }
    v
}

/// A string holding exactly the given characters.
pub fn string_of(v: &[char]) -> (s: String)
    ensures
        s@ == v@,
{
    let mut s = String::new();
    let mut i: usize = 0;
    while i < v.len()
        invariant
            i <= v.len(),
            s@ == v@.take(i as int),
        decreases v.len() - i,
    {
        push_char(&mut s, v[i]);
        assert(v@.take(i + 1) == v@.take(i as int).push(v@[i as int]));
        i += 1;
    }
    assert(v@.take(v.len() as int) == v@);
    s
}

/// Copy of `s[a..b]`.
pub fn slice_of(s: &[char], a: usize, b: usize) -> (r: Vec<char>)
    requires
        a <= b <= s.len(),
    ensures
        r@ == s@.subrange(a as int, b as int),
{
    let mut r: Vec<char> = Vec::new();
    let mut i = a;
    while i < b
        invariant
            a <= i <= b <= s.len(),
            r@ == s@.subrange(a as int, i as int),
        decreases b - i,
    {
        r.push(s[i]);
        assert(s@.subrange(a as int, i + 1) == s@.subrange(a as int, i as int).push(s@[i as int]));
        i += 1;
    }
    r
}

/// Appends `t` to `v`.
pub fn append_chars(v: &mut Vec<char>, t: &[char])
    ensures
        final(v)@ == old(v)@ + t@,
{
    let mut i: usize = 0;
    while i < t.len()
        invariant
            i <= t.len(),
            v@ == old(v)@ + t@.take(i as int),
        decreases t.len() - i,
    {
        v.push(t[i]);
        assert(t@.take(i + 1) == t@.take(i as int).push(t@[i as int]));
        i += 1;
    }
    assert(t@.take(t.len() as int) == t@);
}

pub fn eq_chars(a: &[char], b: &[char]) -> (r: bool)
    ensures
        r == (a@ == b@),
{
    if a.len() != b.len() {
        return false;
    }
    let mut i: usize = 0;
    while i < a.len()
        invariant
            a.len() == b.len(),
            i <= a.len(),
            forall|k: int| 0 <= k < i ==> a@[k] == b@[k],
        decreases a.len() - i,
    {
        if a[i] != b[i] {
            return false;
        }
        i += 1;
    }
    assert(a@ =~= b@);
    true
}

// ---------------------------------------------------------------------
// Trimming
// ---------------------------------------------------------------------

/// Which characters a trim removes.
#[derive(Clone, Copy, PartialEq, Eq, Debug)]
pub enum Pat {
    /// Unicode white space.
    Whitespace,
    /// `"` and `'`.
    Quotes,
    /// `_`.
    Underscore,
    /// `.`.
    Dot,
}

pub open spec fn pat_match(p: Pat, c: char) -> bool {
    match p {
        Pat::Whitespace => is_ws(c),
        Pat::Quotes => c == '"' || c == '\'',
        Pat::Underscore => c == '_',
        Pat::Dot => c == '.',
    }
}

pub fn matches_pat(p: Pat, c: char) -> (b: bool)
    ensures
        b == pat_match(p, c),
{
    match p {
        Pat::Whitespace => is_whitespace(c),
        Pat::Quotes => c == '"' || c == '\'',
        Pat::Underscore => c == '_',
        Pat::Dot => c == '.',
    }
}

/// First index at or after `i` whose character does not match `p`.
pub open spec fn skip_pat(s: Seq<char>, p: Pat, i: int) -> int
    decreases s.len() - i,
{
    if 0 <= i < s.len() && pat_match(p, s[i]) {
        skip_pat(s, p, i + 1)
    } else {
        i
    }
}

/// Smallest `k <= j` such that `s[k..j]` all match `p`.
pub open spec fn back_pat(s: Seq<char>, p: Pat, j: int) -> int
    decreases j,
{
    if 0 < j <= s.len() && pat_match(p, s[j - 1]) {
        back_pat(s, p, j - 1)
    } else {
        j
    }
}

pub open spec fn trim_start_pat(s: Seq<char>, p: Pat) -> Seq<char> {
    s.subrange(skip_pat(s, p, 0), s.len() as int)
}

pub open spec fn trim_end_pat(s: Seq<char>, p: Pat) -> Seq<char> {
    s.subrange(0, back_pat(s, p, s.len() as int))
}

/// `trim_matches`: both ends.
pub open spec fn trim_pat(s: Seq<char>, p: Pat) -> Seq<char> {
    trim_end_pat(trim_start_pat(s, p), p)
}

pub open spec fn trim(s: Seq<char>) -> Seq<char> {
    trim_pat(s, Pat::Whitespace)
}

pub open spec fn trim_start(s: Seq<char>) -> Seq<char> {
    trim_start_pat(s, Pat::Whitespace)
}

pub open spec fn trim_end(s: Seq<char>) -> Seq<char> {
    trim_end_pat(s, Pat::Whitespace)
}

pub proof fn lemma_skip_pat_bounds(s: Seq<char>, p: Pat, i: int)
    requires
        0 <= i <= s.len(),
    ensures
        i <= skip_pat(s, p, i) <= s.len(),
        forall|k: int| i <= k < skip_pat(s, p, i) ==> pat_match(p, #[trigger] s[k]),
        skip_pat(s, p, i) < s.len() ==> !pat_match(p, s[skip_pat(s, p, i)]),
    decreases s.len() - i,
{
    if i < s.len() && pat_match(p, s[i]) {
        lemma_skip_pat_bounds(s, p, i + 1);
    }
}

pub proof fn lemma_back_pat_bounds(s: Seq<char>, p: Pat, j: int)
    requires
        0 <= j <= s.len(),
    ensures
        0 <= back_pat(s, p, j) <= j,
        forall|k: int| back_pat(s, p, j) <= k < j ==> pat_match(p, #[trigger] s[k]),
        back_pat(s, p, j) > 0 ==> !pat_match(p, s[back_pat(s, p, j) - 1]),
    decreases j,
{
    if 0 < j && pat_match(p, s[j - 1]) {
        lemma_back_pat_bounds(s, p, j - 1);
    }
}

/// Index of the first character of `s[from..]` that does not match `p`.
pub fn skip_while(s: &[char], p: Pat, from: usize) -> (r: usize)
    requires
        from <= s.len(),
    ensures
        r == skip_pat(s@, p, from as int),
        from <= r <= s.len(),
{
    let mut i = from;
    while i < s.len() && matches_pat(p, s[i])
        invariant
            from <= i <= s.len(),
            skip_pat(s@, p, i as int) == skip_pat(s@, p, from as int),
        decreases s.len() - i,
    {
        i += 1;
    }
    i
}

/// End of `s[..to]` once trailing characters matching `p` are dropped.
pub fn back_while(s: &[char], p: Pat, to: usize) -> (r: usize)
    requires
        to <= s.len(),
    ensures
        r == back_pat(s@, p, to as int),
        r <= to,
{
    let mut j = to;
    while j > 0 && matches_pat(p, s[j - 1])
        invariant
            j <= to <= s.len(),
            back_pat(s@, p, j as int) == back_pat(s@, p, to as int),
        decreases j,
    {
        j -= 1;
    }
    j
}

pub fn trim_chars_pat(s: &[char], p: Pat) -> (r: Vec<char>)
    ensures
        r@ == trim_pat(s@, p),
{
    let a = skip_while(s, p, 0);
    let t = slice_of(s, a, s.len());
    let b = back_while(&t, p, t.len());
    slice_of(&t, 0, b)
}

pub fn trim_chars(s: &[char]) -> (r: Vec<char>)
    ensures
        r@ == trim(s@),
{
    trim_chars_pat(s, Pat::Whitespace)
}

pub fn trim_start_chars(s: &[char]) -> (r: Vec<char>)
    ensures
        r@ == trim_start(s@),
{
    let a = skip_while(s, Pat::Whitespace, 0);
    slice_of(s, a, s.len())
}

pub fn trim_end_chars(s: &[char]) -> (r: Vec<char>)
    ensures
        r@ == trim_end(s@),
{
    let b = back_while(s, Pat::Whitespace, s.len());
    slice_of(s, 0, b)
}

// ---------------------------------------------------------------------
// Searching
// ---------------------------------------------------------------------

pub open spec fn starts_with(s: Seq<char>, p: Seq<char>) -> bool {
    p.len() <= s.len() && s.subrange(0, p.len() as int) == p
}

/// Position of the first `c` at or after `i`.
pub open spec fn find_char(s: Seq<char>, c: char, i: int) -> Option<int>
    decreases s.len() - i,
{
    if i < 0 || i >= s.len() {
        None
    } else if s[i] == c {
        Some(i)
    } else {
        find_char(s, c, i + 1)
    }
}

pub open spec fn matches_at(s: Seq<char>, p: Seq<char>, j: int) -> bool {
    0 <= j && j + p.len() <= s.len() && s.subrange(j, j + p.len()) == p
}

/// Position of the first occurrence of `p` starting at or after `i`.
pub open spec fn find_seq(s: Seq<char>, p: Seq<char>, i: int) -> Option<int>
    decreases s.len() - i,
{
    if i < 0 || i + p.len() > s.len() {
        None
    } else if s.subrange(i, i + p.len()) == p {
        Some(i)
    } else if i >= s.len() {
        None
    } else {
        find_seq(s, p, i + 1)
    }
}

pub proof fn lemma_find_char(s: Seq<char>, c: char, i: int)
    requires
        0 <= i,
    ensures
        find_char(s, c, i) matches Some(k) ==> i <= k < s.len() && s[k] == c && forall|m: int|
            i <= m < k ==> s[m] != c,
        find_char(s, c, i) is None ==> forall|m: int| i <= m < s.len() ==> s[m] != c,
    decreases s.len() - i,
{
    if i < s.len() && s[i] != c {
        lemma_find_char(s, c, i + 1);
    }
}

pub proof fn lemma_find_seq(s: Seq<char>, p: Seq<char>, i: int)
    requires
        0 <= i,
    ensures
        find_seq(s, p, i) matches Some(k) ==> i <= k && k + p.len() <= s.len() && matches_at(
            s,
            p,
            k,
        ) && forall|m: int| i <= m < k ==> !matches_at(s, p, m),
        find_seq(s, p, i) is None ==> forall|m: int| i <= m ==> !matches_at(s, p, m),
    decreases s.len() - i,
{
    if i < s.len() && i + p.len() <= s.len() && s.subrange(i, i + p.len()) != p {
        lemma_find_seq(s, p, i + 1);
    }
}

pub fn find_char_from(s: &[char], c: char, from: usize) -> (r: Option<usize>)
    ensures
        match r {
            Some(k) => find_char(s@, c, from as int) == Some(k as int),
            None => find_char(s@, c, from as int) is None,
        },
{
    let mut i = from;
    while i < s.len()
        invariant
            from <= i,
            find_char(s@, c, i as int) == find_char(s@, c, from as int),
        decreases s.len() - i,
    {
        if s[i] == c {
            return Some(i);
        }
        i += 1;
    }
    None
}

pub fn matches_at_exec(s: &[char], p: &[char], j: usize) -> (r: bool)
    ensures
        r == matches_at(s@, p@, j as int),
{
    if j > s.len() || p.len() > s.len() - j {
        return false;
    }
    let mut k: usize = 0;
    while k < p.len()
        invariant
            j + p.len() <= s.len(),
            k <= p.len(),
            forall|m: int| 0 <= m < k ==> s@[j + m] == p@[m],
        decreases p.len() - k,
    {
        if s[j + k] != p[k] {
            assert(s@.subrange(j as int, j + p.len())[k as int] != p@[k as int]);
            return false;
        }
        k += 1;
    }
    assert(s@.subrange(j as int, j + p.len()) =~= p@);
    true
}

pub fn find_seq_from(s: &[char], p: &[char], from: usize) -> (r: Option<usize>)
    ensures
        match r {
            Some(k) => find_seq(s@, p@, from as int) == Some(k as int),
            None => find_seq(s@, p@, from as int) is None,
        },
{
    if from > s.len() {
        return None;
    }
    let mut i = from;
    loop
        invariant
            from <= i <= s.len(),
            find_seq(s@, p@, i as int) == find_seq(s@, p@, from as int),
        decreases s.len() - i,
    {
        if p.len() > s.len() - i {
            return None;
        }
        if matches_at_exec(s, p, i) {
            return Some(i);
        }
        if i == s.len() {
            return None;
        }
        i += 1;
    }
}

pub fn starts_with_chars(s: &[char], p: &[char]) -> (r: bool)
    ensures
        r == starts_with(s@, p@),
{
    matches_at_exec(s, p, 0)
}

pub fn contains_char(s: &[char], c: char) -> (r: bool)
    ensures
        r == s@.contains(c),
{
    let mut i: usize = 0;
    while i < s.len()
        invariant
            i <= s.len(),
            forall|k: int| 0 <= k < i ==> s@[k] != c,
        decreases s.len() - i,
    {
        if s[i] == c {
            return true;
        }
        i += 1;
    }
    false
}

pub fn contains_seq(s: &[char], p: &[char]) -> (r: bool)
    ensures
        r == (find_seq(s@, p@, 0) is Some),
{
    find_seq_from(s, p, 0).is_some()
}

// ---------------------------------------------------------------------
// Replacing
// ---------------------------------------------------------------------

/// `str::replace`: every non-overlapping occurrence of `p`, scanning left to
/// right, is replaced by `r`.
pub open spec fn replace_all(s: Seq<char>, p: Seq<char>, r: Seq<char>) -> Seq<char>
    decreases s.len(),
{
    if p.len() == 0 || s.len() < p.len() {
        s
    } else if s.subrange(0, p.len() as int) == p {
        r + replace_all(s.subrange(p.len() as int, s.len() as int), p, r)
    } else {
        seq![s[0]] + replace_all(s.subrange(1, s.len() as int), p, r)
    }
}

pub fn replace_chars(s: &[char], p: &[char], r: &[char]) -> (out: Vec<char>)
    requires
        p@.len() > 0,
    ensures
        out@ == replace_all(s@, p@, r@),
{
    let mut out: Vec<char> = Vec::new();
    let mut i: usize = 0;
    assert(s@.subrange(0, s@.len() as int) == s@);
    assert(Seq::<char>::empty() + replace_all(s@, p@, r@) == replace_all(s@, p@, r@));
    while i < s.len()
        invariant
            i <= s.len(),
            p@.len() > 0,
            out@ + replace_all(s@.subrange(i as int, s@.len() as int), p@, r@) == replace_all(
                s@,
                p@,
                r@,
            ),
        decreases s.len() - i,
    {
        let ghost rest = s@.subrange(i as int, s@.len() as int);
        if matches_at_exec(s, p, i) {
            assert(rest.subrange(0, p@.len() as int) == s@.subrange(i as int, i + p@.len()));
            assert(rest.subrange(p@.len() as int, rest.len() as int) == s@.subrange(
                i + p@.len(),
                s@.len() as int,
            ));
            let ghost before = out@;
            append_chars(&mut out, r);
            assert(out@ + replace_all(s@.subrange(i + p@.len(), s@.len() as int), p@, r@) == before
                + replace_all(rest, p@, r@));
            i += p.len();
        } else {
            proof {
                if rest.len() >= p@.len() {
                    assert(rest.subrange(0, p@.len() as int) == s@.subrange(
                        i as int,
                        i + p@.len(),
                    ));
                }
                assert(rest.subrange(1, rest.len() as int) == s@.subrange(
                    i + 1,
                    s@.len() as int,
                ));
                if rest.len() < p@.len() {
                    assert(replace_all(rest, p@, r@) == rest);
                    assert(rest == seq![rest[0]] + rest.subrange(1, rest.len() as int));
                    lemma_replace_short(rest.subrange(1, rest.len() as int), p@, r@);
                }
            }
            let ghost before = out@;
            out.push(s[i]);
            assert(out@ == before + seq![s@[i as int]]);
            i += 1;
        }
    }
    assert(s@.subrange(s@.len() as int, s@.len() as int) =~= Seq::<char>::empty());
    assert(out@ + Seq::<char>::empty() == out@);
    out
}

pub proof fn lemma_replace_short(s: Seq<char>, p: Seq<char>, r: Seq<char>)
    requires
        s.len() < p.len(),
    ensures
        replace_all(s, p, r) == s,
{
}

// ---------------------------------------------------------------------
// Splitting
// ---------------------------------------------------------------------

/// The views of a sequence of character vectors.
pub open spec fn views(v: Seq<Vec<char>>) -> Seq<Seq<char>> {
    Seq::new(v.len(), |i: int| v[i]@)
}

/// `str::split(c)` pieces of `s[start..]`.
pub open spec fn split_from(s: Seq<char>, c: char, start: int) -> Seq<Seq<char>>
    decreases s.len() - start,
{
    if start < 0 || start > s.len() {
        Seq::empty()
    } else {
        match find_char(s, c, start) {
            None => seq![s.subrange(start, s.len() as int)],
            Some(k) => if k < start || k >= s.len() {
                Seq::empty()
            } else {
                seq![s.subrange(start, k)] + split_from(s, c, k + 1)
            },
        }
    }
}

pub open spec fn split_char(s: Seq<char>, c: char) -> Seq<Seq<char>> {
    split_from(s, c, 0)
}

pub fn split_chars(s: &[char], c: char) -> (out: Vec<Vec<char>>)
    ensures
        views(out@) == split_char(s@, c),
{
    let mut out: Vec<Vec<char>> = Vec::new();
    let mut start: usize = 0;
    loop
        invariant
            start <= s.len(),
            views(out@) + split_from(s@, c, start as int) == split_char(s@, c),
        decreases s.len() - start,
    {
        proof {
            lemma_find_char(s@, c, start as int);
        }
        match find_char_from(s, c, start) {
            None => {
                let piece = slice_of(s, start, s.len());
                let ghost before = views(out@);
                out.push(piece);
                assert(views(out@) =~= before.push(piece@));
                assert(split_from(s@, c, start as int) == seq![piece@]);
                return out;
            },
            Some(k) => {
                let piece = slice_of(s, start, k);
                let ghost before = views(out@);
                out.push(piece);
                assert(views(out@) =~= before.push(piece@));
                assert(split_from(s@, c, start as int) == seq![piece@] + split_from(
                    s@,
                    c,
                    k + 1,
                ));
                assert(before + (seq![piece@] + split_from(s@, c, k + 1)) == before.push(piece@)
                    + split_from(s@, c, k + 1));
                start = k + 1;
            },
        }
    }
}

/// First white-space index at or after `i`, or the length.
pub open spec fn next_ws(s: Seq<char>, i: int) -> int
    decreases s.len() - i,
{
    if 0 <= i < s.len() && !is_ws(s[i]) {
        next_ws(s, i + 1)
    } else {
        i
    }
}

/// `split_whitespace` pieces of `s[i..]`.
pub open spec fn ws_tokens_from(s: Seq<char>, i: int) -> Seq<Seq<char>>
    decreases s.len() - i,
{
    let a = skip_pat(s, Pat::Whitespace, i);
    if i < 0 || a >= s.len() || a < i {
        Seq::empty()
    } else {
        let b = next_ws(s, a);
        if b <= a || b > s.len() {
            Seq::empty()
        } else {
            seq![s.subrange(a, b)] + ws_tokens_from(s, b)
        }
    }
}

pub open spec fn ws_tokens(s: Seq<char>) -> Seq<Seq<char>> {
    ws_tokens_from(s, 0)
}

pub proof fn lemma_next_ws(s: Seq<char>, i: int)
    requires
        0 <= i <= s.len(),
    ensures
        i <= next_ws(s, i) <= s.len(),
        forall|k: int| i <= k < next_ws(s, i) ==> !is_ws(#[trigger] s[k]),
        next_ws(s, i) < s.len() ==> is_ws(s[next_ws(s, i)]),
    decreases s.len() - i,
{
    if i < s.len() && !is_ws(s[i]) {
        lemma_next_ws(s, i + 1);
    }
}

pub fn next_ws_exec(s: &[char], from: usize) -> (r: usize)
    requires
        from <= s.len(),
    ensures
        r == next_ws(s@, from as int),
{
    let mut i = from;
    while i < s.len() && !is_whitespace(s[i])
        invariant
            from <= i <= s.len(),
            next_ws(s@, i as int) == next_ws(s@, from as int),
        decreases s.len() - i,
    {
        i += 1;
    }
    i
}

pub fn split_ws_chars(s: &[char]) -> (out: Vec<Vec<char>>)
    ensures
        views(out@) == ws_tokens(s@),
{
    let mut out: Vec<Vec<char>> = Vec::new();
    let mut i: usize = 0;
    loop
        invariant
            i <= s.len(),
            views(out@) + ws_tokens_from(s@, i as int) == ws_tokens(s@),
        decreases s.len() - i,
    {
        proof {
            lemma_skip_pat_bounds(s@, Pat::Whitespace, i as int);
        }
        let a = skip_while(s, Pat::Whitespace, i);
        if a >= s.len() {
            assert(ws_tokens_from(s@, i as int) == Seq::<Seq<char>>::empty());
            assert(views(out@) + Seq::<Seq<char>>::empty() == views(out@));
            return out;
        }
        proof {
            lemma_next_ws(s@, a as int);
        }
        let b = next_ws_exec(s, a);
        let piece = slice_of(s, a, b);
        let ghost before = views(out@);
        out.push(piece);
        assert(views(out@) =~= before.push(piece@));
        assert(ws_tokens_from(s@, i as int) == seq![piece@] + ws_tokens_from(s@, b as int));
        assert(before + (seq![piece@] + ws_tokens_from(s@, b as int)) == before.push(piece@)
            + ws_tokens_from(s@, b as int));
        i = b;
    }
}

/// Drops one trailing carriage return.
pub open spec fn strip_cr(t: Seq<char>) -> Seq<char> {
    if t.len() > 0 && t[t.len() - 1] == '\r' {
        t.drop_last()
    } else {
        t
    }
}

/// `str::lines` from position `start`: pieces ended by `\n` (a `\r` right
/// before the `\n` is dropped); no empty piece after a final `\n`.
pub open spec fn lines_from(s: Seq<char>, start: int) -> Seq<Seq<char>>
    decreases s.len() - start,
{
    if start < 0 || start >= s.len() {
        Seq::empty()
    } else {
        match find_char(s, '\n', start) {
            None => seq![s.subrange(start, s.len() as int)],
            Some(k) => if k < start || k >= s.len() {
                Seq::empty()
            } else {
                seq![strip_cr(s.subrange(start, k))] + lines_from(s, k + 1)
            },
        }
    }
}

pub open spec fn lines(s: Seq<char>) -> Seq<Seq<char>> {
    lines_from(s, 0)
}

pub fn lines_chars(s: &[char]) -> (out: Vec<Vec<char>>)
    ensures
        views(out@) == lines(s@),
{
    let mut out: Vec<Vec<char>> = Vec::new();
    let mut start: usize = 0;
    while start < s.len()
        invariant
            start <= s.len(),
            views(out@) + lines_from(s@, start as int) == lines(s@),
        decreases s.len() - start,
    {
        proof {
            lemma_find_char(s@, '\n', start as int);
        }
        match find_char_from(s, '\n', start) {
            None => {
                let piece = slice_of(s, start, s.len());
                let ghost before = views(out@);
                out.push(piece);
                assert(views(out@) =~= before.push(piece@));
                assert(lines_from(s@, start as int) == seq![piece@]);
                assert(lines_from(s@, s@.len() as int) == Seq::<Seq<char>>::empty());
                assert(before + seq![piece@] == before.push(piece@));
                start = s.len();
            },
            Some(k) => {
                let mut piece = slice_of(s, start, k);
                if piece.len() > 0 && piece[piece.len() - 1] == '\r' {
                    piece.pop();
                }
                assert(piece@ == strip_cr(s@.subrange(start as int, k as int)));
                let ghost before = views(out@);
                out.push(piece);
                assert(views(out@) =~= before.push(piece@));
                assert(before + (seq![piece@] + lines_from(s@, k + 1)) == before.push(piece@)
                    + lines_from(s@, k + 1));
                start = k + 1;
            },
        }
    }
    assert(lines_from(s@, start as int) == Seq::<Seq<char>>::empty());
    assert(views(out@) + Seq::<Seq<char>>::empty() == views(out@));
    out
}

// ---------------------------------------------------------------------
// Decimal numerals and string vectors
// ---------------------------------------------------------------------

pub open spec fn digit_char(d: nat) -> char {
    ((48 + d) as u32) as char
}

/// Decimal numeral of `n`, no padding.
pub open spec fn dec(n: nat) -> Seq<char>
    decreases n,
{
    if n < 10 {
        seq![digit_char(n)]
    } else {
        dec(n / 10).push(digit_char(n % 10))
    }
}

fn digit_of(d: u64) -> (r: char)
    requires
        d < 10,
    ensures
        r == digit_char(d as nat),
{
    let b: u8 = (d as u8) + 48;
    let r = b as char;
    assert(r as u32 == 48 + d);
    r
}

/// Decimal digits of `n`.
pub fn dec_chars(n: u64) -> (r: Vec<char>)
    ensures
        r@ == dec(n as nat),
    decreases n,
{
    if n < 10 {
        let mut v: Vec<char> = Vec::new();
        v.push(digit_of(n));
        v
    } else {
        let mut v = dec_chars(n / 10);
        v.push(digit_of(n % 10));
        v
    }
}

/// The views of a sequence of strings.
pub open spec fn str_views(v: Seq<String>) -> Seq<Seq<char>> {
    Seq::new(v.len(), |i: int| v[i]@)
}

/// Each character vector as a string.
pub fn strings_of(v: &Vec<Vec<char>>) -> (r: Vec<String>)
    ensures
        str_views(r@) == views(v@),
{
    let mut r: Vec<String> = Vec::new();
    let mut i: usize = 0;
    while i < v.len()
        invariant
            i <= v.len(),
            r@.len() == i,
            forall|k: int| 0 <= k < i ==> (#[trigger] r@[k])@ == v@[k]@,
        decreases v.len() - i,
    {
        r.push(string_of(&v[i]));
        i += 1;
    }
    assert(str_views(r@) =~= views(v@));
    r
}

/// The characters of each string.
pub fn chars_of_all(v: &[String]) -> (r: Vec<Vec<char>>)
    ensures
        views(r@) == str_views(v@),
{
    let mut r: Vec<Vec<char>> = Vec::new();
    let mut i: usize = 0;
    while i < v.len()
        invariant
            i <= v.len(),
            r@.len() == i,
            forall|k: int| 0 <= k < i ==> (#[trigger] r@[k])@ == v@[k]@,
        decreases v.len() - i,
    {
        r.push(chars_of(v[i].as_str()));
        i += 1;
    }
    assert(views(r@) =~= str_views(v@));
    r
}

// ---------------------------------------------------------------------
// UTF-8 length
// ---------------------------------------------------------------------

/// Bytes of one character in UTF-8.
fn char_width(c: char) -> (w: usize)
    ensures
        w == vstd::utf8::encode_scalar(c as u32).len(),
{
    proof {
        vstd::utf8::char_is_scalar(c);
    }
    let u = c as u32;
    if u < 0x80 {
        1
    } else if u < 0x800 {
        2
    } else if u < 0x10000 {
        3
    } else {
        4
    }
}

/// Whether the UTF-8 encoding of `s` has at least `k` bytes (what
/// `str::len() >= k` tests).
pub fn byte_len_at_least(s: &[char], k: usize) -> (r: bool)
    ensures
        r == (vstd::utf8::encode_utf8(s@).len() >= k),
{
    let mut total: usize = 0;
    let mut i: usize = s.len();
    assert(s@.subrange(s@.len() as int, s@.len() as int) =~= Seq::<char>::empty());
    while i > 0
        invariant
            i <= s.len(),
            total <= k,
            total as int == if vstd::utf8::encode_utf8(s@.subrange(i as int, s@.len() as int)).len()
                < k {
                vstd::utf8::encode_utf8(s@.subrange(i as int, s@.len() as int)).len() as int
            } else {
                k as int
            },
        decreases i,
    {
        let w = char_width(s[i - 1]);
        let ghost tail = s@.subrange(i as int, s@.len() as int);
        let ghost longer = s@.subrange(i - 1, s@.len() as int);
        assert(longer.drop_first() =~= tail);
        assert(longer[0] == s@[i - 1]);
        assert(vstd::utf8::encode_utf8(longer) == vstd::utf8::encode_scalar(s@[i - 1] as u32)
            + vstd::utf8::encode_utf8(tail));
        if k - total <= w {
            total = k;
        } else {
            total = total + w;
        }
        i -= 1;
    }
    assert(s@.subrange(0, s@.len() as int) =~= s@);
    total >= k
}

} // verus!
