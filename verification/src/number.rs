//! Recognition of decimal floating-point literals, as accepted by the
//! standard library's `f64` parser (the grammar in its `FromStr` docs,
//! applied to the lower-cased text).

use vstd::prelude::*;
use crate::text::{
    eq_chars, find_char, find_char_from, is_ascii_digit, is_digit, lemma_find_char, lower_chars,
    lower_seq, slice_of,
};

verus! {

pub open spec fn is_sign(c: char) -> bool {
    c == '+' || c == '-'
}

/// Drops one leading sign.
pub open spec fn unsigned(t: Seq<char>) -> Seq<char> {
    if t.len() > 0 && is_sign(t[0]) {
        t.drop_first()
    } else {
        t
    }
}

pub open spec fn is_special(b: Seq<char>) -> bool {
    b == seq!['i', 'n', 'f'] || b == seq!['i', 'n', 'f', 'i', 'n', 'i', 't', 'y'] || b == seq![
        'n',
        'a',
        'n',
    ]
}

/// `Digit+ | Digit+ '.' Digit* | Digit* '.' Digit+`.
pub open spec fn valid_mantissa(m: Seq<char>) -> bool {
    &&& forall|i: int| 0 <= i < m.len() ==> is_digit(#[trigger] m[i]) || m[i] == '.'
    &&& forall|i: int, j: int| 0 <= i < j < m.len() && #[trigger] m[i] == '.' ==> #[trigger] m[j] != '.'
    &&& exists|i: int| 0 <= i < m.len() && is_digit(#[trigger] m[i])
}

pub open spec fn all_digits(s: Seq<char>) -> bool {
    forall|i: int| 0 <= i < s.len() ==> is_digit(#[trigger] s[i])
}

/// `'e' Sign? Digit+`.
pub open spec fn valid_exponent(x: Seq<char>) -> bool {
    x.len() > 0 && x[0] == 'e' && unsigned(x.drop_first()).len() > 0 && all_digits(
        unsigned(x.drop_first()),
    )
}

/// `Number ::= Mantissa Exp?`, split at the first `e`.
pub open spec fn is_number(b: Seq<char>) -> bool {
    match find_char(b, 'e', 0) {
        None => valid_mantissa(b),
        Some(k) => valid_mantissa(b.subrange(0, k)) && valid_exponent(
            b.subrange(k, b.len() as int),
        ),
    }
}

/// Whether the `f64` parser accepts `s` (no surrounding white space allowed).
pub open spec fn is_f64_literal(s: Seq<char>) -> bool {
    let b = unsigned(lower_seq(s));
    is_special(b) || is_number(b)
}

fn check_mantissa(m: &[char]) -> (r: bool)
    ensures
        r == valid_mantissa(m@),
{
    let mut seen_dot = false;
    let mut seen_digit = false;
    let mut i: usize = 0;
    while i < m.len()
        invariant
            i <= m.len(),
            forall|k: int| 0 <= k < i ==> is_digit(#[trigger] m@[k]) || m@[k] == '.',
            forall|a: int, b: int| 0 <= a < b < i && #[trigger] m@[a] == '.' ==> #[trigger] m@[b] != '.',
            seen_dot == (exists|k: int| 0 <= k < i && #[trigger] m@[k] == '.'),
            seen_digit == (exists|k: int| 0 <= k < i && is_digit(#[trigger] m@[k])),
        decreases m.len() - i,
    {
        let c = m[i];
        if is_ascii_digit(c) {
            seen_digit = true;
        } else if c == '.' {
            if seen_dot {
                proof {
                    let k = choose|k: int| 0 <= k < i && #[trigger] m@[k] == '.';
                    assert(m@[k] == '.' && m@[i as int] == '.');
                }
                return false;
            }
            seen_dot = true;
        } else {
            assert(!(is_digit(m@[i as int]) || m@[i as int] == '.'));
            return false;
        }
        i += 1;
    }
    seen_digit
}

fn check_exponent(x: &[char]) -> (r: bool)
    ensures
        r == valid_exponent(x@),
{
    if x.len() == 0 || x[0] != 'e' {
        return false;
    }
    let mut i: usize = 1;
    if x.len() > 1 && (x[1] == '+' || x[1] == '-') {
        i = 2;
    }
    let ghost u = unsigned(x@.drop_first());
    assert(u == x@.subrange(i as int, x@.len() as int));
    if i >= x.len() {
        assert(u.len() == 0);
        return false;
    }
    let start = i;
    while i < x.len()
        invariant
            start <= i <= x.len(),
            u == x@.subrange(start as int, x@.len() as int),
            u == unsigned(x@.drop_first()),
            x@.len() > 0 && x@[0] == 'e',
            forall|k: int| start <= k < i ==> is_digit(#[trigger] x@[k]),
        decreases x.len() - i,
    {
        if !is_ascii_digit(x[i]) {
            assert(u[i - start] == x@[i as int]);
            assert(!is_digit(u[i - start]));
            return false;
        }
        i += 1;
    }
    assert forall|k: int| 0 <= k < u.len() implies is_digit(#[trigger] u[k]) by {
        assert(u[k] == x@[start + k]);
    }
    true
}

/// Whether the standard `f64` parser accepts these characters.
pub fn parses_as_f64(s: &[char]) -> (r: bool)
    ensures
        r == is_f64_literal(s@),
{
    let t = lower_chars(s);
    let start: usize = if t.len() > 0 && (t[0] == '+' || t[0] == '-') {
        1
    } else {
        0
    };
    let b = slice_of(&t, start, t.len());
    assert(b@ == unsigned(lower_seq(s@)));
    let inf = ['i', 'n', 'f'];
    let infinity = ['i', 'n', 'f', 'i', 'n', 'i', 't', 'y'];
    let nan = ['n', 'a', 'n'];
    if eq_chars(&b, &inf) || eq_chars(&b, &infinity) || eq_chars(&b, &nan) {
        assert(inf@ == seq!['i', 'n', 'f']);
        assert(infinity@ == seq!['i', 'n', 'f', 'i', 'n', 'i', 't', 'y']);
        assert(nan@ == seq!['n', 'a', 'n']);
        return true;
    }
    assert(inf@ == seq!['i', 'n', 'f']);
    assert(infinity@ == seq!['i', 'n', 'f', 'i', 'n', 'i', 't', 'y']);
    assert(nan@ == seq!['n', 'a', 'n']);
    match find_char_from(&b, 'e', 0) {
        None => check_mantissa(&b),
        Some(k) => {
            proof {
                lemma_find_char(b@, 'e', 0);
            }
            let m = slice_of(&b, 0, k);
            let x = slice_of(&b, k, b.len());
            check_mantissa(&m) && check_exponent(&x)
        },
    }
}

} // verus!
