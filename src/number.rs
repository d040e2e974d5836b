//! Recognising numbers in text: the decimal floating-point syntax that
//! decides header detection, and signed 64-bit integer cells.
use vstd::prelude::*;

verus! {

pub open spec fn is_digit(c: char) -> bool {
    '0' <= c && c <= '9'
}

pub open spec fn all_digits(s: Seq<char>) -> bool {
    forall|i: int| 0 <= i < s.len() ==> is_digit(#[trigger] s[i])
}

pub open spec fn is_sign(c: char) -> bool {
    c == '+' || c == '-'
}

/// Digits with at most one decimal point, and at least one digit.
pub open spec fn is_mantissa(s: Seq<char>) -> bool {
    ||| s.len() > 0 && all_digits(s)
    ||| exists|k: int|
        0 <= k < s.len() && s.len() > 1 && #[trigger] s[k] == '.' && all_digits(s.subrange(0, k))
            && all_digits(s.subrange(k + 1, s.len() as int))
}

/// The digits of an exponent, with an optional sign.
pub open spec fn is_exponent(s: Seq<char>) -> bool {
    ||| s.len() > 0 && all_digits(s)
    ||| s.len() > 1 && is_sign(s[0]) && all_digits(s.drop_first())
}

pub open spec fn is_exp_mark(c: char) -> bool {
    c == 'e' || c == 'E'
}

/// A mantissa, optionally followed by an exponent.
pub open spec fn is_decimal(s: Seq<char>) -> bool {
    ||| is_mantissa(s)
    ||| exists|k: int|
        0 <= k < s.len() && #[trigger] is_exp_mark(s[k]) && is_mantissa(s.subrange(0, k))
            && is_exponent(s.subrange(k + 1, s.len() as int))
}

pub open spec fn ascii_lower(c: char) -> char {
    if 'A' <= c && c <= 'Z' {
        ((c as u32) + 32) as char
    } else {
        c
    }
}

pub open spec fn lower_ascii(s: Seq<char>) -> Seq<char> {
    s.map_values(|c: char| ascii_lower(c))
}

/// `inf`, `infinity` or `nan`, in any case.
pub open spec fn is_special_float(s: Seq<char>) -> bool {
    let l = lower_ascii(s);
    l == seq!['i', 'n', 'f'] || l == seq!['i', 'n', 'f', 'i', 'n', 'i', 't', 'y'] || l == seq![
        'n',
        'a',
        'n',
    ]
}

/// The text accepted as a floating-point number: an optional sign, then a
/// decimal number or one of the special values.
pub open spec fn is_float_text(s: Seq<char>) -> bool {
    let body = if s.len() > 0 && is_sign(s[0]) {
        s.drop_first()
    } else {
        s
    };
    is_special_float(body) || is_decimal(body)
}

/// Whether `s[lo..hi]` holds only digits.
fn digits_only(s: &Vec<char>, lo: usize, hi: usize) -> (r: bool)
    requires
        lo <= hi <= s@.len(),
    ensures
        r == all_digits(s@.subrange(lo as int, hi as int)),
{
    let mut i: usize = lo;
    while i < hi
        invariant
            lo <= i <= hi <= s@.len(),
            all_digits(s@.subrange(lo as int, i as int)),
        decreases hi - i,
    {
        if !('0' <= s[i] && s[i] <= '9') {
            assert(s@.subrange(lo as int, hi as int)[i - lo] == s@[i as int]);
            return false;
        }
        assert forall|j: int| 0 <= j < i + 1 - lo implies is_digit(
            #[trigger] s@.subrange(lo as int, i + 1)[j],
        ) by {
            if j < i - lo {
                assert(s@.subrange(lo as int, i + 1)[j] == s@.subrange(lo as int, i as int)[j]);
            }
        }
        i = i + 1;
    }
    true
}

/// The first index in `lo..hi` holding `c` or `d`, or `hi`.
fn find_first(s: &Vec<char>, lo: usize, hi: usize, c: char, d: char) -> (r: usize)
    requires
        lo <= hi <= s@.len(),
    ensures
        lo <= r <= hi,
        r < hi ==> (s@[r as int] == c || s@[r as int] == d),
        forall|j: int| lo <= j < r ==> s@[j] != c && s@[j] != d,
{
    let mut i: usize = lo;
    while i < hi
        invariant
            lo <= i <= hi <= s@.len(),
            forall|j: int| lo <= j < i ==> s@[j] != c && s@[j] != d,
        decreases hi - i,
    {
        if s[i] == c || s[i] == d {
            return i;
        }
        i = i + 1;
    }
    hi
}

/// Whether `s[lo..hi]` is a mantissa.
fn mantissa_at(s: &Vec<char>, lo: usize, hi: usize) -> (r: bool)
    requires
        lo <= hi <= s@.len(),
    ensures
        r == is_mantissa(s@.subrange(lo as int, hi as int)),
{
    let ghost m = s@.subrange(lo as int, hi as int);
    let k = find_first(s, lo, hi, '.', '.');
    if k == hi {
        let r = hi > lo && digits_only(s, lo, hi);
        if !r && hi > lo {
            assert forall|k2: int| 0 <= k2 < m.len() implies #[trigger] m[k2] != '.' by {
                assert(m[k2] == s@[lo + k2]);
            }
        }
        r
    } else {
        let a = digits_only(s, lo, k);
        let b = digits_only(s, k + 1, hi);
        let r = hi - lo > 1 && a && b;
        let ghost kk = (k - lo) as int;
        assert(m.subrange(0, kk) == s@.subrange(lo as int, k as int));
        assert(m.subrange(kk + 1, m.len() as int) == s@.subrange(k + 1, hi as int));
        assert(m[kk] == '.');
        if r {
            assert(is_mantissa(m));
        } else {
            assert(!all_digits(m)) by {
                assert(!is_digit(m[kk]));
            }
            assert forall|k2: int|
                0 <= k2 < m.len() && m.len() > 1 && #[trigger] m[k2] == '.' implies !(all_digits(
                m.subrange(0, k2),
            ) && all_digits(m.subrange(k2 + 1, m.len() as int))) by {
                if k2 > kk {
                    assert(m.subrange(0, k2)[kk] == '.');
                } else if k2 < kk {
                    assert(m[k2] == s@[lo + k2]);
                }
            }
        }
        r
    }
}

/// Whether `s[lo..hi]` is an exponent.
fn exponent_at(s: &Vec<char>, lo: usize, hi: usize) -> (r: bool)
    requires
        lo <= hi <= s@.len(),
    ensures
        r == is_exponent(s@.subrange(lo as int, hi as int)),
{
    let ghost m = s@.subrange(lo as int, hi as int);
    if hi == lo {
        return false;
    }
    if s[lo] == '+' || s[lo] == '-' {
        assert(m.drop_first() == s@.subrange(lo + 1, hi as int));
        assert(!all_digits(m)) by {
            assert(!is_digit(m[0]));
        }
        hi - lo > 1 && digits_only(s, lo + 1, hi)
    } else {
        digits_only(s, lo, hi)
    }
}

/// Whether `s[lo..hi]` is a decimal number.
fn decimal_at(s: &Vec<char>, lo: usize, hi: usize) -> (r: bool)
    requires
        lo <= hi <= s@.len(),
    ensures
        r == is_decimal(s@.subrange(lo as int, hi as int)),
{
    let ghost m = s@.subrange(lo as int, hi as int);
    let k = find_first(s, lo, hi, 'e', 'E');
    if k == hi {
        let r = mantissa_at(s, lo, hi);
        assert forall|k2: int| 0 <= k2 < m.len() implies !#[trigger] is_exp_mark(m[k2]) by {
            assert(m[k2] == s@[lo + k2]);
        }
        r
    } else {
        let ghost kk = (k - lo) as int;
        assert(m.subrange(0, kk) == s@.subrange(lo as int, k as int));
        assert(m.subrange(kk + 1, m.len() as int) == s@.subrange(k + 1, hi as int));
        assert(is_exp_mark(m[kk]));
        let a = mantissa_at(s, lo, k);
        let b = exponent_at(s, k + 1, hi);
        assert(!is_mantissa(m)) by {
            assert(!is_digit(m[kk]));
            assert(!all_digits(m));
            assert forall|k2: int|
                0 <= k2 < m.len() && m.len() > 1 && #[trigger] m[k2] == '.' implies !(all_digits(
                m.subrange(0, k2),
            ) && all_digits(m.subrange(k2 + 1, m.len() as int))) by {
                if k2 > kk {
                    assert(m.subrange(0, k2)[kk] == m[kk]);
                } else if k2 < kk {
                    assert(m.subrange(k2 + 1, m.len() as int)[kk - k2 - 1] == m[kk]);
                }
            }
        }
        assert forall|k2: int|
            0 <= k2 < m.len() && #[trigger] is_exp_mark(m[k2]) && k2 != kk implies !(is_mantissa(
            m.subrange(0, k2),
        ) && is_exponent(m.subrange(k2 + 1, m.len() as int))) by {
            if k2 < kk {
                assert(m[k2] == s@[lo + k2]);
            } else {
                let p = m.subrange(0, k2);
                assert(p[kk] == m[kk]);
                assert(!all_digits(p)) by {
                    assert(!is_digit(p[kk]));
                }
                assert forall|k3: int|
                    0 <= k3 < p.len() && p.len() > 1 && #[trigger] p[k3] == '.' implies !(
                    all_digits(p.subrange(0, k3)) && all_digits(p.subrange(k3 + 1, p.len() as int))) by {
                    if k3 > kk {
                        assert(p.subrange(0, k3)[kk] == p[kk]);
                    } else if k3 < kk {
                        assert(p.subrange(k3 + 1, p.len() as int)[kk - k3 - 1] == p[kk]);
                    }
                }
            }
        }
        a && b
    }
}

/// Lower-cases the ASCII letters of `s[lo..hi]`.
fn lower_range(s: &Vec<char>, lo: usize, hi: usize) -> (r: Vec<char>)
    requires
        lo <= hi <= s@.len(),
    ensures
        r@ == lower_ascii(s@.subrange(lo as int, hi as int)),
{
    let mut r: Vec<char> = Vec::new();
    let mut i: usize = lo;
    while i < hi
        invariant
            lo <= i <= hi <= s@.len(),
            r@ == lower_ascii(s@.subrange(lo as int, i as int)),
        decreases hi - i,
    {
        let c = s[i];
        let l = if 'A' <= c && c <= 'Z' {
            char_from_code(c as u32 + 32)
        } else {
            c
        };
        r.push(l);
        assert(lower_ascii(s@.subrange(lo as int, i + 1)) == lower_ascii(
            s@.subrange(lo as int, i as int),
        ).push(ascii_lower(c)));
        i = i + 1;
    }
    r
}

/// The character with an ASCII code.
fn char_from_code(n: u32) -> (c: char)
    requires
        n < 128,
    ensures
        c == n as char,
{
    n as u8 as char
}

fn same_chars(a: &Vec<char>, b: &str) -> (r: bool)
    ensures
        r == (a@ == b@),
{
    let bs = crate::text::chars_of(b);
    if a.len() != bs.len() {
        return false;
    }
    let mut i: usize = 0;
    while i < a.len()
        invariant
            i <= a@.len() == bs@.len(),
            bs@ == b@,
            forall|j: int| 0 <= j < i ==> a@[j] == bs@[j],
        decreases a.len() - i,
    {
        if a[i] != bs[i] {
            return false;
        }
        i = i + 1;
    }
    assert(a@ == bs@);
    true
}

/// Whether `s[lo..hi]` is accepted as a floating-point number.
pub fn float_text_at(s: &Vec<char>, lo: usize, hi: usize) -> (r: bool)
    requires
        lo <= hi <= s@.len(),
    ensures
        r == is_float_text(s@.subrange(lo as int, hi as int)),
{
    let ghost m = s@.subrange(lo as int, hi as int);
    let start = if hi > lo && (s[lo] == '+' || s[lo] == '-') {
        lo + 1
    } else {
        lo
    };
    let ghost body = if m.len() > 0 && is_sign(m[0]) {
        m.drop_first()
    } else {
        m
    };
    assert(body == s@.subrange(start as int, hi as int));
    let l = lower_range(s, start, hi);
    let special = same_chars(&l, "inf") || same_chars(&l, "infinity") || same_chars(&l, "nan");
    proof {
        reveal_strlit("inf");
        reveal_strlit("infinity");
        reveal_strlit("nan");
        assert("inf"@ =~= seq!['i', 'n', 'f']);
        assert("infinity"@ =~= seq!['i', 'n', 'f', 'i', 'n', 'i', 't', 'y']);
        assert("nan"@ =~= seq!['n', 'a', 'n']);
    }
    assert(special == is_special_float(body));
    special || decimal_at(s, start, hi)
}

} // verus!
