//! Tag scanning for KML boat reports: placemark blocks, their names,
//! coordinates text and extended-data fields. Positions are character
//! indices; tag names are matched by their local part (after any `ns:`),
//! ignoring ASCII case.

use vstd::prelude::*;
use crate::text::{
    chars_of, replace_all, replace_chars, find_char, find_char_from, is_ws, is_whitespace, lemma_find_char, lower_chars, lower_seq,
    slice_of,
};

verus! {

// ---------------------------------------------------------------------
// Tag names
// ---------------------------------------------------------------------

pub open spec fn ends_name(c: char) -> bool {
    is_ws(c) || c == '>' || c == '/'
}

/// First index at or after `i` that ends a tag name, or the length.
pub open spec fn name_end(s: Seq<char>, i: int) -> int
    decreases s.len() - i,
{
    if 0 <= i < s.len() && !ends_name(s[i]) {
        name_end(s, i + 1)
    } else {
        i
    }
}

/// Index just after the last `:` in `s[a..b]`, or `a`.
pub open spec fn after_last_colon(s: Seq<char>, a: int, b: int) -> int
    decreases b - a,
{
    if b <= a {
        a
    } else if s[b - 1] == ':' {
        b
    } else {
        after_last_colon(s, a, b - 1)
    }
}

/// Local part of the tag name that starts at `i` (the text up to white
/// space, `>` or `/`, without any namespace prefix).
pub open spec fn local_name(s: Seq<char>, i: int) -> Seq<char> {
    let e = name_end(s, i);
    s.subrange(after_last_colon(s, i, e), e)
}

proof fn lemma_name_end(s: Seq<char>, i: int)
    requires
        0 <= i <= s.len(),
    ensures
        i <= name_end(s, i) <= s.len(),
    decreases s.len() - i,
{
    if i < s.len() && !ends_name(s[i]) {
        lemma_name_end(s, i + 1);
    }
}

proof fn lemma_after_last_colon(s: Seq<char>, a: int, b: int)
    requires
        a <= b,
    ensures
        a <= after_last_colon(s, a, b) <= b,
    decreases b - a,
{
    if b > a && s[b - 1] != ':' {
        lemma_after_last_colon(s, a, b - 1);
    }
}

fn tag_local_name(s: &[char], i: usize) -> (r: Vec<char>)
    requires
        i <= s.len(),
    ensures
        r@ == local_name(s@, i as int),
{
    let mut e = i;
    while e < s.len() && !(is_whitespace(s[e]) || s[e] == '>' || s[e] == '/')
        invariant
            i <= e <= s.len(),
            name_end(s@, e as int) == name_end(s@, i as int),
        decreases s.len() - e,
    {
        e += 1;
    }
    let mut b = e;
    while b > i && s[b - 1] != ':'
        invariant
            i <= b <= e <= s.len(),
            after_last_colon(s@, i as int, b as int) == after_last_colon(s@, i as int, e as int),
        decreases b - i,
    {
        b -= 1;
    }
    slice_of(s, b, e)
}

// ---------------------------------------------------------------------
// Opening and closing tags
// ---------------------------------------------------------------------

/// Position of the first opening tag `<name ...` at or after `i` whose local
/// name is `local` (closing tags `</...` are passed over).
pub open spec fn find_open(s: Seq<char>, local: Seq<char>, i: int) -> Option<int>
    decreases s.len() - i,
{
    if i < 0 || i >= s.len() {
        None
    } else {
        match find_char(s, '<', i) {
            None => None,
            Some(at) => if at < i || at >= s.len() {
                None
            } else if at + 1 < s.len() && s[at + 1] == '/' {
                find_open(s, local, at + 1)
            } else if local_name(s, at + 1) == local {
                Some(at)
            } else {
                find_open(s, local, at + 1)
            },
        }
    }
}

/// Position of the `<` of the closing tag that matches, scanning from `i`
/// with `depth` tags open; nested opening tags of the same name (not
/// self-closing) deepen the count.
pub open spec fn find_close(s: Seq<char>, local: Seq<char>, i: int, depth: int) -> Option<int>
    decreases s.len() - i,
{
    if i < 0 || i >= s.len() {
        None
    } else {
        match find_char(s, '<', i) {
            None => None,
            Some(at) => if at < i || at >= s.len() {
                None
            } else {
                let closing = at + 1 < s.len() && s[at + 1] == '/';
                let name = if closing {
                    local_name(s, at + 2)
                } else {
                    local_name(s, at + 1)
                };
                if name == local {
                    if closing {
                        if depth - 1 == 0 {
                            Some(at)
                        } else {
                            find_close(s, local, at + 1, depth - 1)
                        }
                    } else {
                        match find_char(s, '>', at) {
                            None => None,
                            Some(g) => if g < at + 1 || g >= s.len() {
                                None
                            } else if s[g - 1] != '/' {
                                find_close(s, local, at + 1, depth + 1)
                            } else {
                                find_close(s, local, at + 1, depth)
                            },
                        }
                    }
                } else {
                    find_close(s, local, at + 1, depth)
                }
            },
        }
    }
}

pub proof fn lemma_find_open(s: Seq<char>, local: Seq<char>, i: int)
    requires
        0 <= i,
    ensures
        find_open(s, local, i) matches Some(a) ==> i <= a < s.len() && s[a] == '<',
    decreases s.len() - i,
{
    if 0 <= i < s.len() {
        lemma_find_char(s, '<', i);
        match find_char(s, '<', i) {
            None => {},
            Some(at) => {
                if at >= i && at < s.len() {
                    lemma_find_open(s, local, at + 1);
                }
            },
        }
    }
}

pub proof fn lemma_find_close(s: Seq<char>, local: Seq<char>, i: int, depth: int)
    requires
        0 <= i,
    ensures
        find_close(s, local, i, depth) matches Some(a) ==> i <= a < s.len() && s[a] == '<',
    decreases s.len() - i,
{
    if 0 <= i < s.len() {
        lemma_find_char(s, '<', i);
        match find_char(s, '<', i) {
            None => {},
            Some(at) => {
                if at >= i && at < s.len() {
                    lemma_find_close(s, local, at + 1, depth - 1);
                    lemma_find_close(s, local, at + 1, depth + 1);
                    lemma_find_close(s, local, at + 1, depth);
                }
            },
        }
    }
}

fn find_open_tag(lower: &[char], local: &[char], from: usize) -> (r: Option<usize>)
    ensures
        match r {
            Some(a) => find_open(lower@, local@, from as int) == Some(a as int),
            None => find_open(lower@, local@, from as int) is None,
        },
{
    let mut i = from;
    while i < lower.len()
        invariant
            from <= i,
            find_open(lower@, local@, i as int) == find_open(lower@, local@, from as int),
        decreases lower.len() - i,
    {
        proof {
            lemma_find_char(lower@, '<', i as int);
        }
        let at = match find_char_from(lower, '<', i) {
            Some(at) => at,
            None => return None,
        };
        let after = at + 1;
        if after < lower.len() && lower[after] == '/' {
            i = after;
            continue ;
        }
        let name = tag_local_name(lower, after);
        if crate::text::eq_chars(&name, local) {
            return Some(at);
        }
        i = after;
    }
    None
}

fn find_close_tag(lower: &[char], local: &[char], from: usize) -> (r: Option<usize>)
    ensures
        match r {
            Some(a) => find_close(lower@, local@, from as int, 1) == Some(a as int),
            None => find_close(lower@, local@, from as int, 1) is None,
        },
{
    let mut i = from;
    let mut depth: usize = 1;
    while i < lower.len()
        invariant
            from <= i,
            1 <= depth <= i - from + 1,
            find_close(lower@, local@, i as int, depth as int) == find_close(
                lower@,
                local@,
                from as int,
                1,
            ),
        decreases lower.len() - i,
    {
        proof {
            lemma_find_char(lower@, '<', i as int);
        }
        let at = match find_char_from(lower, '<', i) {
            Some(at) => at,
            None => return None,
        };
        let after = at + 1;
        let closing = after < lower.len() && lower[after] == '/';
        let name = if closing {
            tag_local_name(lower, after + 1)
        } else {
            tag_local_name(lower, after)
        };
        if crate::text::eq_chars(&name, local) {
            if closing {
                depth -= 1;
                if depth == 0 {
                    return Some(at);
                }
            } else {
                proof {
                    lemma_find_char(lower@, '>', at as int);
                }
                let g = match find_char_from(lower, '>', at) {
                    Some(g) => g,
                    None => return None,
                };
                if lower[g - 1] != '/' {
                    depth += 1;
                }
            }
        }
        i = after;
    }
    None
}

// ---------------------------------------------------------------------
// Blocks
// ---------------------------------------------------------------------

/// Content ranges `(start, end)` of the elements named `local` in `s`, from
/// position `i`: for each opening tag that is not self-closing, the text up
/// to its matching closing tag; scanning resumes at that closing tag.
pub open spec fn blocks_from(s: Seq<char>, local: Seq<char>, i: int) -> Seq<(int, int)>
    decreases s.len() - i,
{
    if i < 0 || i >= s.len() {
        Seq::empty()
    } else {
        match find_open(s, local, i) {
            None => Seq::empty(),
            Some(start) => match find_char(s, '>', start) {
                None => Seq::empty(),
                Some(gt) => if gt < i || gt >= s.len() {
                    Seq::empty()
                } else if gt >= 1 && s[gt - 1] == '/' {
                    blocks_from(s, local, gt + 1)
                } else {
                    match find_close(s, local, gt + 1, 1) {
                        None => Seq::empty(),
                        Some(end) => if end <= i || end > s.len() {
                            Seq::empty()
                        } else {
                            seq![(gt + 1, end)] + blocks_from(s, local, end)
                        },
                    }
                },
            },
        }
    }
}

/// Content ranges of the elements named `local` (ASCII case ignored).
pub open spec fn block_ranges(text: Seq<char>, local: Seq<char>) -> Seq<(int, int)> {
    blocks_from(lower_seq(text), lower_seq(local), 0)
}

pub open spec fn range_views(v: Seq<(usize, usize)>) -> Seq<(int, int)> {
    Seq::new(v.len(), |i: int| (v[i].0 as int, v[i].1 as int))
}

pub proof fn lemma_blocks_from(s: Seq<char>, local: Seq<char>, i: int)
    requires
        0 <= i,
    ensures
        forall|k: int|
            0 <= k < blocks_from(s, local, i).len() ==> i < (#[trigger] blocks_from(s, local, i)[k]).0
                <= blocks_from(s, local, i)[k].1 <= s.len(),
    decreases s.len() - i,
{
    if 0 <= i < s.len() {
        lemma_find_open(s, local, i);
        match find_open(s, local, i) {
            None => {},
            Some(start) => {
                lemma_find_char(s, '>', start);
                match find_char(s, '>', start) {
                    None => {},
                    Some(gt) => {
                        if gt >= i && gt < s.len() {
                            if gt >= 1 && s[gt - 1] == '/' {
                                lemma_blocks_from(s, local, gt + 1);
                                assert(blocks_from(s, local, i) == blocks_from(s, local, gt + 1));
                            } else {
                                lemma_find_close(s, local, gt + 1, 1);
                                match find_close(s, local, gt + 1, 1) {
                                    None => {},
                                    Some(end) => {
                                        if end > i && end <= s.len() {
                                            lemma_blocks_from(s, local, end);
                                            let rest = blocks_from(s, local, end);
                                            assert forall|k: int|
                                                0 <= k < blocks_from(s, local, i).len() implies i
                                                < (#[trigger] blocks_from(s, local, i)[k]).0
                                                <= blocks_from(s, local, i)[k].1 <= s.len() by {
                                                if k > 0 {
                                                    assert(blocks_from(s, local, i)[k] == rest[k
                                                        - 1]);
                                                } else {
                                                    assert(blocks_from(s, local, i)[0] == (gt + 1, end));
                                                }
                                            }
                                        }
                                    },
                                }
                            }
                        }
                    },
                }
            },
        }
    }
}

/// Content ranges of the elements named `local` in `lower` (both already
/// lower-cased).
fn block_ranges_exec(lower: &[char], needle: &[char]) -> (r: Vec<(usize, usize)>)
    ensures
        range_views(r@) == blocks_from(lower@, needle@, 0),
{
    let mut out: Vec<(usize, usize)> = Vec::new();
    let mut i: usize = 0;
    while i < lower.len()
        invariant
            i <= lower.len(),
            range_views(out@) + blocks_from(lower@, needle@, i as int) == blocks_from(
                lower@,
                needle@,
                0,
            ),
        decreases lower.len() - i,
    {
        proof {
            lemma_find_open(lower@, needle@, i as int);
        }
        let start = match find_open_tag(lower, needle, i) {
            Some(s) => s,
            None => {
                assert(range_views(out@) + Seq::<(int, int)>::empty() == range_views(out@));
                return out;
            },
        };
        proof {
            lemma_find_char(lower@, '>', start as int);
        }
        let gt = match find_char_from(lower, '>', start) {
            Some(g) => g,
            None => {
                assert(range_views(out@) + Seq::<(int, int)>::empty() == range_views(out@));
                return out;
            },
        };
        if gt >= 1 && lower[gt - 1] == '/' {
            i = gt + 1;
            continue ;
        }
        let inner = gt + 1;
        proof {
            lemma_find_close(lower@, needle@, inner as int, 1);
        }
        match find_close_tag(lower, needle, inner) {
            Some(end) => {
                let ghost before = range_views(out@);
                out.push((inner, end));
                assert(range_views(out@) =~= before.push((inner as int, end as int)));
                assert(before + (seq![(inner as int, end as int)] + blocks_from(
                    lower@,
                    needle@,
                    end as int,
                )) == before.push((inner as int, end as int)) + blocks_from(
                    lower@,
                    needle@,
                    end as int,
                ));
                i = end;
            },
            None => {
                assert(range_views(out@) + Seq::<(int, int)>::empty() == range_views(out@));
                return out;
            },
        }
    }
    assert(blocks_from(lower@, needle@, i as int) == Seq::<(int, int)>::empty());
    assert(range_views(out@) + Seq::<(int, int)>::empty() == range_views(out@));
    out
}

/// Content ranges of the elements of `text` whose local tag name is `local`,
/// ignoring ASCII case.
pub fn tagged_block_ranges(text: &[char], local: &[char]) -> (r: Vec<(usize, usize)>)
    ensures
        range_views(r@) == block_ranges(text@, local@),
        forall|k: int|
            0 <= k < r@.len() ==> (#[trigger] r@[k]).0 <= r@[k].1 <= text@.len(),
{
    let lower = lower_chars(text);
    let needle = lower_chars(local);
    let r = block_ranges_exec(&lower, &needle);
    proof {
        lemma_blocks_from(lower@, needle@, 0);
        assert forall|k: int| 0 <= k < r@.len() implies (#[trigger] r@[k]).0 <= r@[k].1
            <= text@.len() by {
            assert(range_views(r@)[k] == blocks_from(lower@, needle@, 0)[k]);
        }
    }
    r
}

/// Contents of the elements named `local`.
pub open spec fn blocks(text: Seq<char>, local: Seq<char>) -> Seq<Seq<char>> {
    let rs = block_ranges(text, local);
    Seq::new(rs.len(), |k: int| text.subrange(rs[k].0, rs[k].1))
}

// ---------------------------------------------------------------------
// Text of an element
// ---------------------------------------------------------------------

/// Characters outside `<...>` tags, with the tag state carried along.
pub open spec fn strip_state(s: Seq<char>) -> (Seq<char>, bool)
    decreases s.len(),
{
    if s.len() == 0 {
        (Seq::empty(), false)
    } else {
        let p = strip_state(s.drop_last());
        let c = s.last();
        if c == '<' {
            (p.0, true)
        } else if c == '>' {
            (p.0, false)
        } else if !p.1 {
            (p.0.push(c), p.1)
        } else {
            p
        }
    }
}

pub open spec fn strip_tags(s: Seq<char>) -> Seq<char> {
    strip_state(s).0
}

/// Text with every `<...>` tag removed (an unclosed `<` drops the rest).
pub fn strip_tags_chars(s: &[char]) -> (r: Vec<char>)
    ensures
        r@ == strip_tags(s@),
{
    let mut out: Vec<char> = Vec::new();
    let mut in_tag = false;
    let mut i: usize = 0;
    while i < s.len()
        invariant
            i <= s.len(),
            strip_state(s@.take(i as int)) == (out@, in_tag),
        decreases s.len() - i,
    {
        assert(s@.take(i + 1).drop_last() =~= s@.take(i as int));
        let c = s[i];
        if c == '<' {
            in_tag = true;
        } else if c == '>' {
            in_tag = false;
        } else if !in_tag {
            out.push(c);
        }
        i += 1;
    }
    assert(s@.take(s@.len() as int) =~= s@);
    out
}

/// Stripping tags leaves no angle brackets.
pub proof fn law_strip_tags_no_brackets(s: Seq<char>)
    ensures
        !strip_tags(s).contains('<'),
        !strip_tags(s).contains('>'),
    decreases s.len(),
{
    if s.len() > 0 {
        law_strip_tags_no_brackets(s.drop_last());
        let p = strip_state(s.drop_last());
        if s.last() != '<' && s.last() != '>' && !p.1 {
            assert forall|i: int| 0 <= i < p.0.push(s.last()).len() implies p.0.push(s.last())[i]
                != '<' && p.0.push(s.last())[i] != '>' by {
                if i < p.0.len() {
                    assert(p.0.contains(p.0[i]));
                }
            }
        }
    }
}

pub open spec fn amp() -> Seq<char> {
    seq!['&', 'a', 'm', 'p', ';']
}

pub open spec fn lt_ent() -> Seq<char> {
    seq!['&', 'l', 't', ';']
}

pub open spec fn gt_ent() -> Seq<char> {
    seq!['&', 'g', 't', ';']
}

pub open spec fn quot_ent() -> Seq<char> {
    seq!['&', 'q', 'u', 'o', 't', ';']
}

pub open spec fn apos_ent() -> Seq<char> {
    seq!['&', 'a', 'p', 'o', 's', ';']
}

/// The five XML entities, replaced in the order `&amp;`, `&lt;`, `&gt;`,
/// `&quot;`, `&apos;`.
pub open spec fn decode_xml(s: Seq<char>) -> Seq<char> {
    replace_all(
        replace_all(
            replace_all(replace_all(replace_all(s, amp(), seq!['&']), lt_ent(), seq!['<']), gt_ent(), seq!['>']),
            quot_ent(),
            seq!['"'],
        ),
        apos_ent(),
        seq!['\''],
    )
}

pub fn decode_xml_chars(s: &[char]) -> (r: Vec<char>)
    ensures
        r@ == decode_xml(s@),
{
    let amp_p = ['&', 'a', 'm', 'p', ';'];
    let lt_p = ['&', 'l', 't', ';'];
    let gt_p = ['&', 'g', 't', ';'];
    let quot_p = ['&', 'q', 'u', 'o', 't', ';'];
    let apos_p = ['&', 'a', 'p', 'o', 's', ';'];
    let a = ['&'];
    let l = ['<'];
    let g = ['>'];
    let q = ['"'];
    let p = ['\''];
    assert(amp_p@ == amp() && lt_p@ == lt_ent() && gt_p@ == gt_ent() && quot_p@ == quot_ent()
        && apos_p@ == apos_ent());
    assert(a@ == seq!['&'] && l@ == seq!['<'] && g@ == seq!['>'] && q@ == seq!['"'] && p@
        == seq!['\'']);
    let r1 = replace_chars(s, &amp_p, &a);
    let r2 = replace_chars(&r1, &lt_p, &l);
    let r3 = replace_chars(&r2, &gt_p, &g);
    let r4 = replace_chars(&r3, &quot_p, &q);
    replace_chars(&r4, &apos_p, &p)
}

/// Text of an element: tags stripped, entities decoded, trimmed.
pub open spec fn text_content(block: Seq<char>) -> Seq<char> {
    crate::text::trim(decode_xml(strip_tags(block)))
}

pub fn text_content_chars(block: &[char]) -> (r: Vec<char>)
    ensures
        r@ == text_content(block@),
{
    let a = strip_tags_chars(block);
    let b = decode_xml_chars(&a);
    crate::text::trim_chars(&b)
}

/// Text of the first element named `tag`, if any.
pub open spec fn first_tag_text(hay: Seq<char>, tag: Seq<char>) -> Option<Seq<char>> {
    let b = blocks(hay, tag);
    if b.len() == 0 {
        None
    } else {
        Some(text_content(b[0]))
    }
}

pub fn first_tag_text_chars(hay: &[char], tag: &[char]) -> (r: Option<Vec<char>>)
    ensures
        match r {
            Some(v) => first_tag_text(hay@, tag@) == Some(v@),
            None => first_tag_text(hay@, tag@) is None,
        },
{
    let rs = tagged_block_ranges(hay, tag);
    if rs.len() == 0 {
        return None;
    }
    let (a, b) = rs[0];
    assert(range_views(rs@)[0] == (a as int, b as int));
    let inner = slice_of(hay, a, b);
    Some(text_content_chars(&inner))
}

// ---------------------------------------------------------------------
// Attributes
// ---------------------------------------------------------------------

/// Position of the opening tag whose content starts at `inner`, scanning
/// opening tags named `local` from `i`.
pub open spec fn block_start_from(s: Seq<char>, local: Seq<char>, inner: int, i: int) -> Option<int>
    decreases s.len() - i,
{
    if i < 0 || i >= inner || i >= s.len() {
        None
    } else {
        match find_open(s, local, i) {
            None => None,
            Some(open) => match find_char(s, '>', open) {
                None => None,
                Some(g) => if g + 1 == inner {
                    Some(open)
                } else if g + 1 <= i || g >= s.len() {
                    None
                } else {
                    block_start_from(s, local, inner, g + 1)
                },
            },
        }
    }
}

fn tagged_block_start(lower: &[char], needle: &[char], inner: usize) -> (r: Option<usize>)
    ensures
        match r {
            Some(a) => block_start_from(lower@, needle@, inner as int, 0) == Some(a as int),
            None => block_start_from(lower@, needle@, inner as int, 0) is None,
        },
{
    let mut i: usize = 0;
    while i < inner && i < lower.len()
        invariant
            block_start_from(lower@, needle@, inner as int, i as int) == block_start_from(
                lower@,
                needle@,
                inner as int,
                0,
            ),
        decreases lower.len() - i,
    {
        proof {
            lemma_find_open(lower@, needle@, i as int);
        }
        let open = match find_open_tag(lower, needle, i) {
            Some(o) => o,
            None => return None,
        };
        proof {
            lemma_find_char(lower@, '>', open as int);
        }
        let g = match find_char_from(lower, '>', open) {
            Some(g) => g,
            None => return None,
        };
        if g + 1 == inner {
            return Some(open);
        }
        i = g + 1;
    }
    None
}

/// Value of attribute `attr` in the text of an opening tag: after the first
/// `attr=` (ASCII case ignored), a quoted value up to the closing quote, or
/// an unquoted one up to white space, `>` or `/`.
pub open spec fn attr_value(open: Seq<char>, attr: Seq<char>) -> Option<Seq<char>> {
    let key = attr.push('=');
    match crate::text::find_seq(lower_seq(open), key, 0) {
        None => None,
        Some(at) => {
            let after = open.subrange(at + key.len(), open.len() as int);
            if after.len() == 0 {
                None
            } else {
                let q = after[0];
                if q == '"' || q == '\'' {
                    match find_char(after, q, 1) {
                        None => None,
                        Some(e) => Some(after.subrange(1, e)),
                    }
                } else {
                    Some(after.subrange(0, name_end(after, 0)))
                }
            }
        },
    }
}

fn attr_value_exec(open: &[char], attr: &[char]) -> (r: Option<Vec<char>>)
    ensures
        match r {
            Some(v) => attr_value(open@, attr@) == Some(v@),
            None => attr_value(open@, attr@) is None,
        },
{
    let lower = lower_chars(open);
    let mut key: Vec<char> = crate::text::slice_of(attr, 0, attr.len());
    assert(attr@.subrange(0, attr@.len() as int) =~= attr@);
    key.push('=');
    proof {
        crate::text::lemma_find_seq(lower@, key@, 0);
    }
    let at = match crate::text::find_seq_from(&lower, &key, 0) {
        Some(at) => at,
        None => return None,
    };
    assert(lower@.len() == open@.len());
    let klen = key.len();
    assert(at + klen <= open.len());
    let after = slice_of(open, at + klen, open.len());
    if after.len() == 0 {
        return None;
    }
    let q = after[0];
    if q == '"' || q == '\'' {
        proof {
            lemma_find_char(after@, q, 1);
        }
        match find_char_from(&after, q, 1) {
            None => None,
            Some(e) => Some(slice_of(&after, 1, e)),
        }
    } else {
        let mut e: usize = 0;
        while e < after.len() && !(is_whitespace(after[e]) || after[e] == '>' || after[e] == '/')
            invariant
                e <= after.len(),
                name_end(after@, e as int) == name_end(after@, 0),
            decreases after.len() - e,
        {
            e += 1;
        }
        Some(slice_of(&after, 0, e))
    }
}

pub open spec fn name_attr() -> Seq<char> {
    seq!['n', 'a', 'm', 'e']
}

/// `name` attribute of the opening tag at `start` (or, when none is given, of
/// the first opening tag named `tag`).
pub open spec fn open_tag_attr(hay: Seq<char>, tag: Seq<char>, open_at: Option<int>) -> Option<
    Seq<char>,
> {
    let start = match open_at {
        Some(a) => Some(a),
        None => find_open(lower_seq(hay), lower_seq(tag), 0),
    };
    match start {
        None => None,
        Some(st) => if st < 0 || st > hay.len() {
            None
        } else {
            let rest = hay.subrange(st, hay.len() as int);
            match find_char(rest, '>', 0) {
                None => None,
                Some(gt) => attr_value(rest.subrange(0, gt), name_attr()),
            }
        },
    }
}

fn open_tag_attr_exec(hay: &[char], tag: &[char], open_at: Option<usize>) -> (r: Option<Vec<char>>)
    ensures
        match r {
            Some(v) => open_tag_attr(
                hay@,
                tag@,
                match open_at {
                    Some(a) => Some(a as int),
                    None => None,
                },
            ) == Some(v@),
            None => open_tag_attr(
                hay@,
                tag@,
                match open_at {
                    Some(a) => Some(a as int),
                    None => None,
                },
            ) is None,
        },
{
    let start = match open_at {
        Some(a) => a,
        None => {
            let lower = lower_chars(hay);
            let needle = lower_chars(tag);
            match find_open_tag(&lower, &needle, 0) {
                Some(a) => a,
                None => return None,
            }
        },
    };
    if start > hay.len() {
        return None;
    }
    let rest = slice_of(hay, start, hay.len());
    proof {
        lemma_find_char(rest@, '>', 0);
    }
    let gt = match find_char_from(&rest, '>', 0) {
        Some(g) => g,
        None => return None,
    };
    let open = slice_of(&rest, 0, gt);
    let name = ['n', 'a', 'm', 'e'];
    assert(name@ == name_attr());
    attr_value_exec(&open, &name)
}

// ---------------------------------------------------------------------
// Fields
// ---------------------------------------------------------------------

/// Field keys: trimmed, ASCII letters and digits lower-cased, every other
/// character `_`, outer `_` stripped.
pub open spec fn normalized_key(name: Seq<char>) -> Seq<char> {
    crate::text::trim_pat(
        crate::schema::map_norm(crate::text::trim(name)),
        crate::text::Pat::Underscore,
    )
}

fn normalize_key(name: &[char]) -> (r: Vec<char>)
    ensures
        r@ == normalized_key(name@),
{
    let t = crate::text::trim_chars(name);
    let m = crate::schema::map_norm_chars(&t);
    crate::text::trim_chars_pat(&m, crate::text::Pat::Underscore)
}

/// A normalised key holds only lower-case ASCII letters, digits and `_`, and
/// neither starts nor ends with `_`.
pub proof fn law_normalized_key_shape(name: Seq<char>)
    ensures
        forall|i: int|
            0 <= i < normalized_key(name).len() ==> {
                let c = #[trigger] normalized_key(name)[i];
                crate::text::is_digit(c) || crate::text::is_lower(c) || c == '_'
            },
        normalized_key(name).len() > 0 ==> normalized_key(name)[0] != '_'
            && normalized_key(name)[normalized_key(name).len() - 1] != '_',
{
    let m = crate::schema::map_norm(crate::text::trim(name));
    let p = crate::text::Pat::Underscore;
    crate::text::lemma_skip_pat_bounds(m, p, 0);
    let a = crate::text::skip_pat(m, p, 0);
    let t = m.subrange(a, m.len() as int);
    crate::text::lemma_back_pat_bounds(t, p, t.len() as int);
    let k = normalized_key(name);
    assert forall|i: int| 0 <= i < k.len() implies {
        let c = #[trigger] k[i];
        crate::text::is_digit(c) || crate::text::is_lower(c) || c == '_'
    } by {
        assert(k[i] == m[a + i]);
    }
    if k.len() > 0 {
        assert(k[0] == m[a]);
        assert(k[k.len() - 1] == t[k.len() - 1]);
    }
}

pub type Pair = (Seq<char>, Seq<char>);

pub open spec fn pair_views(v: Seq<(Vec<char>, Vec<char>)>) -> Seq<Pair> {
    Seq::new(v.len(), |i: int| (v[i].0@, v[i].1@))
}

/// A field list as a map: a later entry for a key replaces an earlier one.
pub open spec fn assoc_map(es: Seq<Pair>) -> Map<Seq<char>, Seq<char>>
    decreases es.len(),
{
    if es.len() == 0 {
        Map::empty()
    } else {
        assoc_map(es.drop_last()).insert(es.last().0, es.last().1)
    }
}

/// Records field `name = value` (key normalised, value decoded and trimmed)
/// unless either ends up empty.
pub open spec fn insert_field(es: Seq<Pair>, name: Seq<char>, value: Seq<char>) -> Seq<Pair> {
    let k = normalized_key(name);
    let v = crate::text::trim(decode_xml(value));
    if k.len() == 0 || v.len() == 0 {
        es
    } else {
        es.push((k, v))
    }
}

fn insert_field_exec(es: &mut Vec<(Vec<char>, Vec<char>)>, name: &[char], value: &[char])
    ensures
        pair_views(final(es)@) == insert_field(pair_views(old(es)@), name@, value@),
{
    let key = normalize_key(name);
    let d = decode_xml_chars(value);
    let v = crate::text::trim_chars(&d);
    if key.len() == 0 || v.len() == 0 {
        return;
    }
    let ghost before = pair_views(es@);
    es.push((key, v));
    assert(pair_views(es@) =~= before.push((key@, v@)));
}

/// Fields of one placemark, keyed by normalised name.
#[derive(Debug)]
pub struct Fields {
    pub entries: Vec<(String, String)>,
}

pub open spec fn string_pair_views(v: Seq<(String, String)>) -> Seq<Pair> {
    Seq::new(v.len(), |i: int| (v[i].0@, v[i].1@))
}

impl View for Fields {
    type V = Map<Seq<char>, Seq<char>>;

    open spec fn view(&self) -> Map<Seq<char>, Seq<char>> {
        assoc_map(string_pair_views(self.entries@))
    }
}

proof fn lemma_assoc_lookup(es: Seq<Pair>, k: Seq<char>, j: int)
    requires
        -1 <= j < es.len(),
        forall|m: int| j < m < es.len() ==> (#[trigger] es[m]).0 != k,
    ensures
        j >= 0 && es[j].0 == k ==> assoc_map(es).contains_key(k) && assoc_map(es)[k] == es[j].1,
        j == -1 ==> !assoc_map(es).contains_key(k),
    decreases es.len(),
{
    if es.len() > 0 && j < es.len() - 1 {
        assert(es.last().0 != k);
        assert forall|m: int| j < m < es.drop_last().len() implies (#[trigger] es.drop_last()[m]).0 != k by {
            assert(es.drop_last()[m] == es[m]);
        }
        lemma_assoc_lookup(es.drop_last(), k, j);
        if j >= 0 {
            assert(es.drop_last()[j] == es[j]);
        }
    }
}

impl Fields {
    /// Value recorded for `key`, if any.
    pub fn get(&self, key: &str) -> (r: Option<String>)
        ensures
            r is Some <==> self@.contains_key(key@),
            r matches Some(v) ==> v@ == self@[key@],
    {
        let k = chars_of(key);
        let ghost es = string_pair_views(self.entries@);
        let mut j = self.entries.len();
        while j > 0
            invariant
                j <= self.entries@.len(),
                k@ == key@,
                es == string_pair_views(self.entries@),
                forall|m: int| j <= m < es.len() ==> (#[trigger] es[m]).0 != k@,
            decreases j,
        {
            let e = chars_of(self.entries[j - 1].0.as_str());
            assert(es[j - 1] == (self.entries@[j - 1].0@, self.entries@[j - 1].1@));
            if crate::text::eq_chars(&e, &k) {
                proof {
                    lemma_assoc_lookup(es, k@, j - 1);
                    assert(es[j - 1].0 == k@);
                    assert(assoc_map(es).contains_key(k@));
                    assert(self@ == assoc_map(es));
                }
                let v = self.entries[j - 1].1.clone();
                assert(v@ == es[j - 1].1);
                return Some(v);
            }
            j -= 1;
        }
        proof {
            lemma_assoc_lookup(es, k@, -1);
        }
        None
    }

    /// Value of the first of `keys` that is recorded.
    pub fn first_of(&self, keys: &[&str]) -> (r: Option<String>)
        ensures
            r matches Some(v) ==> exists|i: int|
                0 <= i < keys@.len() && self@.contains_key(#[trigger] keys@[i]@) && v@ == self@[keys@[i]@]
                    && forall|m: int| 0 <= m < i ==> !self@.contains_key(#[trigger] keys@[m]@),
            r is None ==> forall|i: int| 0 <= i < keys@.len() ==> !self@.contains_key(#[trigger] keys@[i]@),
    {
        let mut i: usize = 0;
        while i < keys.len()
            invariant
                i <= keys@.len(),
                forall|m: int| 0 <= m < i ==> !self@.contains_key(#[trigger] keys@[m]@),
            decreases keys@.len() - i,
        {
            match self.get(keys[i]) {
                Some(v) => return Some(v),
                None => {},
            }
            i += 1;
        }
        None
    }

    /// Whether no field was recorded.
    pub fn is_empty(&self) -> (b: bool)
        ensures
            b == (self@.dom() =~= Set::<Seq<char>>::empty()),
    {
        proof {
            lemma_assoc_empty(string_pair_views(self.entries@));
        }
        self.entries.len() == 0
    }
}

proof fn lemma_assoc_empty(es: Seq<Pair>)
    ensures
        (es.len() == 0) == (assoc_map(es).dom() =~= Set::<Seq<char>>::empty()),
{
    if es.len() > 0 {
        assert(assoc_map(es).dom().contains(es.last().0));
    }
}

// ---------------------------------------------------------------------
// Description fallback
// ---------------------------------------------------------------------

pub open spec fn br1() -> Seq<char> {
    seq!['<', 'b', 'r', '>']
}

pub open spec fn br2() -> Seq<char> {
    seq!['<', 'b', 'r', '/', '>']
}

pub open spec fn br3() -> Seq<char> {
    seq!['<', 'b', 'r', ' ', '/', '>']
}

pub open spec fn end_tr() -> Seq<char> {
    seq!['<', '/', 't', 'r', '>']
}

pub open spec fn end_td() -> Seq<char> {
    seq!['<', '/', 't', 'd', '>']
}

pub open spec fn end_th() -> Seq<char> {
    seq!['<', '/', 't', 'h', '>']
}

/// Description HTML made into lines: entities decoded, `<br>` variants and
/// `</tr>` become line breaks, `</td>` and `</th>` spaces, tags stripped.
pub open spec fn desc_lines(desc: Seq<char>) -> Seq<Seq<char>> {
    let nl = seq!['\n'];
    let sp = seq![' '];
    let plain = replace_all(
        replace_all(
            replace_all(
                replace_all(replace_all(replace_all(decode_xml(desc), br1(), nl), br2(), nl), br3(), nl),
                end_tr(),
                nl,
            ),
            end_td(),
            sp,
        ),
        end_th(),
        sp,
    );
    crate::text::lines(strip_tags(plain))
}

/// `key: value` or `key=value` on a trimmed, non-empty line.
pub open spec fn line_pair(line: Seq<char>) -> Option<Pair> {
    let t = crate::text::trim(line);
    if t.len() == 0 {
        None
    } else {
        match find_char(t, ':', 0) {
            Some(k) => Some((t.subrange(0, k), t.subrange(k + 1, t.len() as int))),
            None => match find_char(t, '=', 0) {
                Some(k) => Some((t.subrange(0, k), t.subrange(k + 1, t.len() as int))),
                None => None,
            },
        }
    }
}

pub open spec fn fold_desc(ls: Seq<Seq<char>>, es: Seq<Pair>) -> Seq<Pair>
    decreases ls.len(),
{
    if ls.len() == 0 {
        es
    } else {
        let e = fold_desc(ls.drop_last(), es);
        match line_pair(ls.last()) {
            Some(p) => insert_field(e, p.0, p.1),
            None => e,
        }
    }
}

fn line_pair_exec(line: &[char]) -> (r: Option<(Vec<char>, Vec<char>)>)
    ensures
        match r {
            Some(p) => line_pair(line@) == Some((p.0@, p.1@)),
            None => line_pair(line@) is None,
        },
{
    let t = crate::text::trim_chars(line);
    if t.len() == 0 {
        return None;
    }
    proof {
        lemma_find_char(t@, ':', 0);
        lemma_find_char(t@, '=', 0);
    }
    let k = match find_char_from(&t, ':', 0) {
        Some(k) => k,
        None => match find_char_from(&t, '=', 0) {
            Some(k) => k,
            None => return None,
        },
    };
    Some((slice_of(&t, 0, k), slice_of(&t, k + 1, t.len())))
}

fn desc_lines_exec(desc: &[char]) -> (r: Vec<Vec<char>>)
    ensures
        crate::text::views(r@) == desc_lines(desc@),
{
    let b1 = ['<', 'b', 'r', '>'];
    let b2 = ['<', 'b', 'r', '/', '>'];
    let b3 = ['<', 'b', 'r', ' ', '/', '>'];
    let tr = ['<', '/', 't', 'r', '>'];
    let td = ['<', '/', 't', 'd', '>'];
    let th = ['<', '/', 't', 'h', '>'];
    let nl = ['\n'];
    let sp = [' '];
    assert(b1@ == br1() && b2@ == br2() && b3@ == br3() && tr@ == end_tr() && td@ == end_td()
        && th@ == end_th());
    assert(nl@ == seq!['\n'] && sp@ == seq![' ']);
    let d = decode_xml_chars(desc);
    let p1 = replace_chars(&d, &b1, &nl);
    let p2 = replace_chars(&p1, &b2, &nl);
    let p3 = replace_chars(&p2, &b3, &nl);
    let p4 = replace_chars(&p3, &tr, &nl);
    let p5 = replace_chars(&p4, &td, &sp);
    let p6 = replace_chars(&p5, &th, &sp);
    let stripped = strip_tags_chars(&p6);
    crate::text::lines_chars(&stripped)
}

fn parse_description_fields(desc: &[char], es: &mut Vec<(Vec<char>, Vec<char>)>)
    ensures
        pair_views(final(es)@) == fold_desc(desc_lines(desc@), pair_views(old(es)@)),
{
    let ls = desc_lines_exec(desc);
    let ghost lv = crate::text::views(ls@);
    let ghost start = pair_views(es@);
    let mut i: usize = 0;
    while i < ls.len()
        invariant
            i <= ls@.len(),
            lv == crate::text::views(ls@),
            lv == desc_lines(desc@),
            pair_views(es@) == fold_desc(lv.take(i as int), start),
            start == pair_views(old(es)@),
        decreases ls@.len() - i,
    {
        assert(lv.take(i + 1).drop_last() =~= lv.take(i as int));
        assert(lv.take(i + 1).last() == ls@[i as int]@);
        match line_pair_exec(&ls[i]) {
            Some(p) => insert_field_exec(es, &p.0, &p.1),
            None => {},
        }
        i += 1;
    }
    assert(lv.take(ls@.len() as int) =~= lv);
}

// ---------------------------------------------------------------------
// Extended data
// ---------------------------------------------------------------------

/// Fields from `<Data name="..">` elements (the `<value>` text, else the
/// element's text).
pub open spec fn data_pairs(block: Seq<char>, rs: Seq<(int, int)>, es: Seq<Pair>) -> Seq<Pair>
    decreases rs.len(),
{
    if rs.len() == 0 {
        es
    } else {
        let e = data_pairs(block, rs.drop_last(), es);
        let r = rs.last();
        let data = block.subrange(r.0, r.1);
        let start = block_start_from(lower_seq(block), "data"@, r.0, 0);
        match open_tag_attr(block, "data"@, start) {
            Some(n) => insert_field(
                e,
                n,
                match first_tag_text(data, "value"@) {
                    Some(v) => v,
                    None => text_content(data),
                },
            ),
            None => e,
        }
    }
}

/// Fields from `<SimpleData name="..">` elements.
pub open spec fn simple_pairs(block: Seq<char>, rs: Seq<(int, int)>, es: Seq<Pair>) -> Seq<Pair>
    decreases rs.len(),
{
    if rs.len() == 0 {
        es
    } else {
        let e = simple_pairs(block, rs.drop_last(), es);
        let r = rs.last();
        let data = block.subrange(r.0, r.1);
        let start = block_start_from(lower_seq(block), "simpledata"@, r.0, 0);
        match open_tag_attr(block, "simpledata"@, start) {
            Some(n) => insert_field(e, n, text_content(data)),
            None => e,
        }
    }
}

/// Fields of a placemark: `Data` then `SimpleData` elements; only when they
/// give none, `key: value` lines of the description.
pub open spec fn extended_fields(block: Seq<char>) -> Seq<Pair> {
    let e1 = data_pairs(block, block_ranges(block, "data"@), Seq::empty());
    let e2 = simple_pairs(block, block_ranges(block, "simpledata"@), e1);
    if e2.len() == 0 {
        match first_tag_text(block, "description"@) {
            Some(d) => fold_desc(desc_lines(d), e2),
            None => e2,
        }
    } else {
        e2
    }
}

fn element_fields(block: &[char], tag: &str, value_tag: bool, es: &mut Vec<(Vec<char>, Vec<char>)>)
    requires
        tag@ == "data"@ <==> value_tag,
        value_tag || tag@ == "simpledata"@,
    ensures
        pair_views(final(es)@) == if value_tag {
            data_pairs(block@, block_ranges(block@, tag@), pair_views(old(es)@))
        } else {
            simple_pairs(block@, block_ranges(block@, tag@), pair_views(old(es)@))
        },
{
    let tag_c = chars_of(tag);
    let rs = tagged_block_ranges(block, &tag_c);
    let lower = lower_chars(block);
    let needle = lower_chars(&tag_c);
    let value_c = chars_of("value");
    let ghost rv = range_views(rs@);
    let ghost start = pair_views(es@);
    proof {
        lower_literal_data();
    }
    let mut i: usize = 0;
    while i < rs.len()
        invariant
            i <= rs@.len(),
            rv == range_views(rs@),
            rv == block_ranges(block@, tag@),
            lower@ == lower_seq(block@),
            needle@ == tag@,
            tag_c@ == tag@,
            value_c@ == "value"@,
            start == pair_views(old(es)@),
            tag@ == "data"@ <==> value_tag,
            value_tag || tag@ == "simpledata"@,
            forall|k: int| 0 <= k < rs@.len() ==> (#[trigger] rs@[k]).0 <= rs@[k].1 <= block@.len(),
            pair_views(es@) == if value_tag {
                data_pairs(block@, rv.take(i as int), start)
            } else {
                simple_pairs(block@, rv.take(i as int), start)
            },
        decreases rs@.len() - i,
    {
        assert(rv.take(i + 1).drop_last() =~= rv.take(i as int));
        assert(rv.take(i + 1).last() == rv[i as int]);
        let (a, b) = rs[i];
        assert(rv[i as int] == (a as int, b as int));
        let data = slice_of(block, a, b);
        let open_at = tagged_block_start(&lower, &needle, a);
        match open_tag_attr_exec(block, &tag_c, open_at) {
            Some(n) => {
                if value_tag {
                    match first_tag_text_chars(&data, &value_c) {
                        Some(v) => insert_field_exec(es, &n, &v),
                        None => {
                            let t = text_content_chars(&data);
                            insert_field_exec(es, &n, &t);
                        },
                    }
                } else {
                    let t = text_content_chars(&data);
                    insert_field_exec(es, &n, &t);
                }
            },
            None => {},
        }
        i += 1;
    }
    assert(rv.take(rs@.len() as int) =~= rv);
}

proof fn lower_literal_data()
    ensures
        lower_seq("data"@) == "data"@,
        lower_seq("simpledata"@) == "simpledata"@,
{
    reveal_strlit("data");
    reveal_strlit("simpledata");
    assert(lower_seq("data"@) =~= "data"@);
    assert(lower_seq("simpledata"@) =~= "simpledata"@);
}

fn extended_fields_exec(block: &[char]) -> (r: Vec<(Vec<char>, Vec<char>)>)
    ensures
        pair_views(r@) == extended_fields(block@),
{
    let mut es: Vec<(Vec<char>, Vec<char>)> = Vec::new();
    assert(pair_views(es@) =~= Seq::<Pair>::empty());
    proof {
        reveal_strlit("data");
        reveal_strlit("simpledata");
    }
    element_fields(block, "data", true, &mut es);
    element_fields(block, "simpledata", false, &mut es);
    if es.len() == 0 {
        let d = chars_of("description");
        match first_tag_text_chars(block, &d) {
            Some(desc) => parse_description_fields(&desc, &mut es),
            None => {},
        }
    }
    es
}

// ---------------------------------------------------------------------
// Placemarks
// ---------------------------------------------------------------------

/// The text parts of one KML placemark.
#[derive(Debug)]
pub struct PlacemarkText {
    /// Position among the file's placemarks, from 0.
    pub index: usize,
    /// `<name>` text (entities decoded once more), or `Boat <index + 1>`.
    pub name: String,
    /// Fields of each white-space separated token of `<coordinates>`, split
    /// at commas and trimmed.
    pub coordinates: Option<Vec<Vec<String>>>,
    pub fields: Fields,
}

pub open spec fn boat_label(i: int) -> Seq<char> {
    "Boat "@ + crate::text::dec((i + 1) as nat)
}

pub open spec fn placemark_name(block: Seq<char>, i: int) -> Seq<char> {
    match first_tag_text(block, "name"@) {
        Some(t) => {
            let d = decode_xml(t);
            if d.len() > 0 {
                d
            } else {
                boat_label(i)
            }
        },
        None => boat_label(i),
    }
}

pub open spec fn coordinate_groups(block: Seq<char>) -> Option<Seq<Seq<Seq<char>>>> {
    match first_tag_text(block, "coordinates"@) {
        None => None,
        Some(t) => {
            let toks = crate::text::ws_tokens(t);
            Some(
                Seq::new(
                    toks.len(),
                    |k: int| crate::schema::delim_split(crate::schema::Delimiter::Comma, toks[k]),
                ),
            )
        },
    }
}

/// A placemark matches block `block` at position `i`.
pub open spec fn placemark_of(p: PlacemarkText, block: Seq<char>, i: int) -> bool {
    &&& p.index == i
    &&& p.name@ == placemark_name(block, i)
    &&& match p.coordinates {
        None => coordinate_groups(block) is None,
        Some(c) => coordinate_groups(block) == Some(crate::schema::str_views2(c@)),
    }
    &&& string_pair_views(p.fields.entries@) == extended_fields(block)
}

fn boat_label_chars(i: usize) -> (r: Vec<char>)
    requires
        i < usize::MAX,
    ensures
        r@ == boat_label(i as int),
{
    let mut v = chars_of("Boat ");
    let d = crate::text::dec_chars((i + 1) as u64);
    crate::text::append_chars(&mut v, &d);
    v
}

fn pairs_to_strings(es: &Vec<(Vec<char>, Vec<char>)>) -> (r: Vec<(String, String)>)
    ensures
        string_pair_views(r@) == pair_views(es@),
{
    let mut r: Vec<(String, String)> = Vec::new();
    let mut i: usize = 0;
    while i < es.len()
        invariant
            i <= es@.len(),
            r@.len() == i,
            forall|k: int| 0 <= k < i ==> (#[trigger] r@[k]).0@ == es@[k].0@ && r@[k].1@ == es@[k].1@,
        decreases es@.len() - i,
    {
        let a = crate::text::string_of(&es[i].0);
        let b = crate::text::string_of(&es[i].1);
        r.push((a, b));
        i += 1;
    }
    assert(string_pair_views(r@) =~= pair_views(es@));
    r
}

fn placemark_exec(block: &[char], i: usize) -> (p: PlacemarkText)
    requires
        i < usize::MAX,
    ensures
        placemark_of(p, block@, i as int),
{
    let name_tag = chars_of("name");
    let name = match first_tag_text_chars(block, &name_tag) {
        Some(t) => {
            let d = decode_xml_chars(&t);
            if d.len() > 0 {
                d
            } else {
                boat_label_chars(i)
            }
        },
        None => boat_label_chars(i),
    };
    let coord_tag = chars_of("coordinates");
    let coordinates = match first_tag_text_chars(block, &coord_tag) {
        None => None,
        Some(t) => {
            let toks = crate::text::split_ws_chars(&t);
            let ghost tv = crate::text::views(toks@);
            let mut groups: Vec<Vec<String>> = Vec::new();
            let mut k: usize = 0;
            while k < toks.len()
                invariant
                    k <= toks@.len(),
                    tv == crate::text::views(toks@),
                    groups@.len() == k,
                    forall|m: int|
                        0 <= m < k ==> crate::text::str_views((#[trigger] groups@[m])@)
                            == crate::schema::delim_split(crate::schema::Delimiter::Comma, tv[m]),
                decreases toks@.len() - k,
            {
                groups.push(crate::schema::Delimiter::Comma.split_chars_public(&toks[k]));
                k += 1;
            }
            assert(crate::schema::str_views2(groups@) =~= Seq::new(
                tv.len(),
                |m: int| crate::schema::delim_split(crate::schema::Delimiter::Comma, tv[m]),
            ));
            Some(groups)
        },
    };
    let es = extended_fields_exec(block);
    let entries = pairs_to_strings(&es);
    PlacemarkText {
        index: i,
        name: crate::text::string_of(&name),
        coordinates,
        fields: Fields { entries },
    }
}

/// Contents of every `Placemark` element; an error when there is none.
pub open spec fn placemark_blocks(text: Seq<char>) -> Seq<Seq<char>> {
    blocks(text, "placemark"@)
}

/// Splits a KML document into its placemarks' text parts.
pub fn scan_placemarks(text: &str) -> (r: Result<Vec<PlacemarkText>, String>)
    ensures
        match r {
            Err(e) => placemark_blocks(text@).len() == 0 && e@ == "no Placemark elements in KML"@,
            Ok(v) => placemark_blocks(text@).len() > 0 && v@.len() == placemark_blocks(text@).len()
                && forall|i: int|
                0 <= i < v@.len() ==> placemark_of(#[trigger] v@[i], placemark_blocks(text@)[i], i),
        },
{
    let cs = chars_of(text);
    let tag = chars_of("placemark");
    let rs = tagged_block_ranges(&cs, &tag);
    let ghost rv = range_views(rs@);
    if rs.len() == 0 {
        return Err(String::from_str("no Placemark elements in KML"));
    }
    let mut out: Vec<PlacemarkText> = Vec::new();
    let mut i: usize = 0;
    while i < rs.len()
        invariant
            i <= rs@.len(),
            rv == range_views(rs@),
            rv == block_ranges(text@, "placemark"@),
            cs@ == text@,
            forall|k: int| 0 <= k < rs@.len() ==> (#[trigger] rs@[k]).0 <= rs@[k].1 <= cs@.len(),
            out@.len() == i,
            forall|k: int|
                0 <= k < i ==> placemark_of(#[trigger] out@[k], placemark_blocks(text@)[k], k),
        decreases rs@.len() - i,
    {
        let (a, b) = rs[i];
        assert(rv[i as int] == (a as int, b as int));
        let block = slice_of(&cs, a, b);
        assert(block@ == placemark_blocks(text@)[i as int]);
        out.push(placemark_exec(&block, i));
        i += 1;
    }
    Ok(out)
}

// ---------------------------------------------------------------------
// Numbers in field values
// ---------------------------------------------------------------------

pub open spec fn num_sep(c: char) -> bool {
    is_ws(c) || c == ',' || c == ';'
}

pub open spec fn skip_num_sep(s: Seq<char>, i: int) -> int
    decreases s.len() - i,
{
    if 0 <= i < s.len() && num_sep(s[i]) {
        skip_num_sep(s, i + 1)
    } else {
        i
    }
}

pub open spec fn next_num_sep(s: Seq<char>, i: int) -> int
    decreases s.len() - i,
{
    if 0 <= i < s.len() && !num_sep(s[i]) {
        next_num_sep(s, i + 1)
    } else {
        i
    }
}

/// First non-empty piece of a field value (trimmed, quotes stripped) when
/// split at white space, `,` and `;`: the text the number parser reads.
pub open spec fn number_token(raw: Seq<char>) -> Option<Seq<char>> {
    let t = crate::text::trim_pat(crate::text::trim(raw), crate::text::Pat::Quotes);
    let a = skip_num_sep(t, 0);
    if a >= t.len() {
        None
    } else {
        Some(t.subrange(a, next_num_sep(t, a)))
    }
}

proof fn lemma_skip_num_sep(s: Seq<char>, i: int)
    requires
        0 <= i <= s.len(),
    ensures
        i <= skip_num_sep(s, i) <= s.len(),
    decreases s.len() - i,
{
    if i < s.len() && num_sep(s[i]) {
        lemma_skip_num_sep(s, i + 1);
    }
}

proof fn lemma_next_num_sep(s: Seq<char>, i: int)
    requires
        0 <= i <= s.len(),
    ensures
        i <= next_num_sep(s, i) <= s.len(),
    decreases s.len() - i,
{
    if i < s.len() && !num_sep(s[i]) {
        lemma_next_num_sep(s, i + 1);
    }
}

/// The text of a field value that is read as a number, if any.
pub fn field_number_token(raw: &str) -> (r: Option<String>)
    ensures
        match r {
            Some(t) => number_token(raw@) == Some(t@),
            None => number_token(raw@) is None,
        },
{
    let cs = chars_of(raw);
    let t0 = crate::text::trim_chars(&cs);
    let t = crate::text::trim_chars_pat(&t0, crate::text::Pat::Quotes);
    let mut a: usize = 0;
    while a < t.len() && (is_whitespace(t[a]) || t[a] == ',' || t[a] == ';')
        invariant
            a <= t.len(),
            skip_num_sep(t@, a as int) == skip_num_sep(t@, 0),
        decreases t.len() - a,
    {
        a += 1;
    }
    if a >= t.len() {
        return None;
    }
    let mut b = a;
    while b < t.len() && !(is_whitespace(t[b]) || t[b] == ',' || t[b] == ';')
        invariant
            a <= b <= t.len(),
            next_num_sep(t@, b as int) == next_num_sep(t@, a as int),
        decreases t.len() - b,
    {
        b += 1;
    }
    let tok = slice_of(&t, a, b);
    Some(crate::text::string_of(&tok))
}

/// The value a `<Data name="..">` element records is the text of its first
/// `<value>` child when it has one, not the element's whole text: after the
/// element's range `r`, the fields map the element's normalised name to
/// that child's text `t`, decoded and trimmed.
pub proof fn law_data_value_child(
    block: Seq<char>,
    rs: Seq<(int, int)>,
    r: (int, int),
    es: Seq<Pair>,
    n: Seq<char>,
    t: Seq<char>,
)
    requires
        open_tag_attr(block, "data"@, block_start_from(lower_seq(block), "data"@, r.0, 0)) == Some(n),
        first_tag_text(block.subrange(r.0, r.1), "value"@) == Some(t),
    ensures
        data_pairs(block, rs.push(r), es) == insert_field(data_pairs(block, rs, es), n, t),
        (normalized_key(n).len() > 0 && crate::text::trim(decode_xml(t)).len() > 0) ==> assoc_map(
            data_pairs(block, rs.push(r), es),
        ).dom().contains(normalized_key(n)) && assoc_map(data_pairs(block, rs.push(r), es))[normalized_key(n)]
            == crate::text::trim(decode_xml(t)),
{
    assert(rs.push(r).drop_last() =~= rs);
    assert(rs.push(r).last() == r);
    let e = data_pairs(block, rs, es);
    let out = insert_field(e, n, t);
    let k = normalized_key(n);
    let val = crate::text::trim(decode_xml(t));
    if k.len() > 0 && val.len() > 0 {
        assert(out == e.push((k, val)));
        assert(out.drop_last() =~= e);
    }
}

} // verus!
