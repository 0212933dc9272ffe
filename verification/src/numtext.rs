//! Which texts `f64::from_str` accepts, as its documentation gives the
//! grammar: an optional sign, then `inf`, `infinity`, `nan` (in any case) or
//! a decimal number with an optional exponent.
use vstd::prelude::*;
use crate::text::{ascii_digit, is_ascii_digit, is_whitespace, lemma_scan_end, scan_end, trimmed, unicode_whitespace};

verus! {

pub open spec fn digit_run() -> spec_fn(char) -> bool {
    |c: char| is_ascii_digit(c)
}

/// `c` is the letter `w`, or its upper-case form.
pub open spec fn letter_matches(c: char, w: char) -> bool {
    c == w || ('A' <= c && c <= 'Z' && (c as u32) + 32 == (w as u32))
}

pub open spec fn same_letters(s: Seq<char>, word: Seq<char>) -> bool {
    s.len() == word.len() && forall|i: int| 0 <= i < s.len() ==> letter_matches(#[trigger] s[i], word[i])
}

/// An exponent, or nothing, from `i` to the end.
pub open spec fn exponent_ok(b: Seq<char>, i: int) -> bool {
    i == b.len() || (i < b.len() && (b[i] == 'e' || b[i] == 'E') && {
        let j = if i + 1 < b.len() && (b[i + 1] == '+' || b[i + 1] == '-') { i + 2 } else { i + 1 };
        let k = scan_end(b, j, digit_run());
        k > j && k == b.len()
    })
}

pub open spec fn number_ok(b: Seq<char>) -> bool {
    let d1 = scan_end(b, 0, digit_run());
    if d1 < b.len() && b[d1] == '.' {
        let d2 = scan_end(b, d1 + 1, digit_run());
        (d1 > 0 || d2 > d1 + 1) && exponent_ok(b, d2)
    } else {
        d1 > 0 && exponent_ok(b, d1)
    }
}

pub open spec fn float_text(s: Seq<char>) -> bool {
    let b = if s.len() > 0 && (s[0] == '+' || s[0] == '-') { s.drop_first() } else { s };
    same_letters(b, "inf"@) || same_letters(b, "infinity"@) || same_letters(b, "nan"@) || number_ok(b)
}

fn letter_match(c: char, w: char) -> (r: bool)
    ensures
        r == letter_matches(c, w),
{
    c == w || ('A' <= c && c <= 'Z' && (c as u32) + 32 == (w as u32))
}

fn digits_from(b: &Vec<char>, i: usize) -> (j: usize)
    requires
        i <= b@.len(),
    ensures
        j == scan_end(b@, i as int, digit_run()),
        i <= j <= b@.len(),
{
    let mut j = i;
    while j < b.len() && ascii_digit(b[j])
        invariant
            i <= j <= b@.len(),
            scan_end(b@, j as int, digit_run()) == scan_end(b@, i as int, digit_run()),
        decreases b@.len() - j,
    {
        j = j + 1;
    }
    j
}

fn letters_are(b: &Vec<char>, word: &str) -> (r: bool)
    ensures
        r == same_letters(b@, word@),
{
    let w = crate::text::chars_of(word);
    if b.len() != w.len() {
        return false;
    }
    let mut i: usize = 0;
    while i < b.len()
        invariant
            b@.len() == w@.len(),
            w@ == word@,
            i <= b@.len(),
            forall|k: int| 0 <= k < i ==> letter_matches(#[trigger] b@[k], w@[k]),
        decreases b@.len() - i,
    {
        if !letter_match(b[i], w[i]) {
            return false;
        }
        i = i + 1;
    }
    true
}

fn exponent_at(b: &Vec<char>, i: usize) -> (r: bool)
    requires
        i <= b@.len(),
    ensures
        r == exponent_ok(b@, i as int),
{
    if i == b.len() {
        return true;
    }
    if !(b[i] == 'e' || b[i] == 'E') {
        return false;
    }
    let j = if i + 1 < b.len() && (b[i + 1] == '+' || b[i + 1] == '-') { i + 2 } else { i + 1 };
    let k = digits_from(b, j);
    k > j && k == b.len()
}

/// Whether `s`, once trimmed, is a text that `f64::from_str` accepts.
pub fn parses_as_float(s: &String) -> (r: bool)
    ensures
        r == float_text(trimmed(s@)),
{
    let all = crate::text::chars_of(s.as_str());
    let mut a: usize = 0;
    let mut z: usize = all.len();
    assert(all@.subrange(0, all@.len() as int) =~= s@);
    while a < z && is_whitespace(all[a])
        invariant
            a <= z == all@.len(),
            all@ == s@,
            trimmed(all@.subrange(a as int, z as int)) == trimmed(s@),
        decreases z - a,
    {
        assert(all@.subrange(a as int, z as int).drop_first() =~= all@.subrange(a + 1, z as int));
        a = a + 1;
    }
    while a < z && is_whitespace(all[z - 1])
        invariant
            a <= z <= all@.len(),
            all@ == s@,
            trimmed(all@.subrange(a as int, z as int)) == trimmed(s@),
            a < z ==> !unicode_whitespace(all@[a as int]),
        decreases z - a,
    {
        assert(all@.subrange(a as int, z as int).drop_last() =~= all@.subrange(a as int, z - 1));
        z = z - 1;
    }
    let mut t: Vec<char> = Vec::new();
    let mut i = a;
    while i < z
        invariant
            a <= i <= z <= all@.len(),
            t@ == all@.subrange(a as int, i as int),
        decreases z - i,
    {
        t.push(all[i]);
        i = i + 1;
        assert(t@ =~= all@.subrange(a as int, i as int));
    }
    proof {
        let u = all@.subrange(a as int, z as int);
        assert(t@ == u);
        if u.len() > 0 {
            assert(!unicode_whitespace(u[0]));
            assert(!unicode_whitespace(u.last()));
        }
        assert(trimmed(u) == u);
    }
    let b = if t.len() > 0 && (t[0] == '+' || t[0] == '-') {
        let mut b2: Vec<char> = Vec::new();
        let mut k: usize = 1;
        while k < t.len()
            invariant
                1 <= k <= t@.len(),
                b2@ == t@.subrange(1, k as int),
            decreases t@.len() - k,
        {
            b2.push(t[k]);
            k = k + 1;
            assert(b2@ =~= t@.subrange(1, k as int));
        }
        assert(b2@ =~= t@.drop_first());
        b2
    } else {
        t
    };
    if letters_are(&b, "inf") || letters_are(&b, "infinity") || letters_are(&b, "nan") {
        return true;
    }
    let d1 = digits_from(&b, 0);
    if d1 < b.len() && b[d1] == '.' {
        let d2 = digits_from(&b, d1 + 1);
        (d1 > 0 || d2 > d1 + 1) && exponent_at(&b, d2)
    } else {
        d1 > 0 && exponent_at(&b, d1)
    }
}

} // verus!
