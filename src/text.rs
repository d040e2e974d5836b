//! Character-level helpers on strings, with their specifications.
use vstd::prelude::*;

verus! {

/// Relies on String::push: appends one character at the end.
#[verifier::external_body]
pub fn push_char(s: &mut String, c: char)
    ensures
        final(s)@ == old(s)@.push(c),
{
    s.push(c)
}

/// The characters of `s`, in order.
pub fn chars_of(s: &str) -> (r: Vec<char>)
    ensures
        r@ == s@,
{
    let mut r: Vec<char> = Vec::new();
    for c in it: s.chars()
        invariant
            r@ == it.seq().take(it.index() as int),
    {
        r.push(c);
    }
    r
}

/// The string made of `cs[lo..hi]`.
pub fn string_of(cs: &Vec<char>, lo: usize, hi: usize) -> (r: String)
    requires
        lo <= hi <= cs@.len(),
    ensures
        r@ == cs@.subrange(lo as int, hi as int),
{
    let mut r = String::new();
    let mut i: usize = lo;
    while i < hi
        invariant
            lo <= i <= hi <= cs@.len(),
            r@ == cs@.subrange(lo as int, i as int),
        decreases hi - i,
    {
        push_char(&mut r, cs[i]);
        assert(cs@.subrange(lo as int, i + 1) == cs@.subrange(lo as int, i as int).push(cs@[i as int]));
        i = i + 1;
    }
    r
}

/// Appends the characters of `t` to `s`.
pub fn push_all(s: &mut String, t: &str)
    ensures
        final(s)@ == old(s)@ + t@,
{
    let cs = chars_of(t);
    let ghost start = s@;
    let mut i: usize = 0;
    while i < cs.len()
        invariant
            i <= cs@.len(),
            cs@ == t@,
            s@ == start + cs@.subrange(0, i as int),
        decreases cs.len() - i,
    {
        push_char(s, cs[i]);
        assert(cs@.subrange(0, i + 1) == cs@.subrange(0, i as int).push(cs@[i as int]));
        i = i + 1;
    }
    assert(cs@.subrange(0, cs@.len() as int) == cs@);
}

/// `s` ends with `t`.
pub open spec fn ends_with(s: Seq<char>, t: Seq<char>) -> bool {
    s.len() >= t.len() && s.subrange(s.len() - t.len(), s.len() as int) == t
}

/// `t` occurs in `s` at index `k`.
pub open spec fn occurs_at(s: Seq<char>, t: Seq<char>, k: int) -> bool {
    0 <= k && k + t.len() <= s.len() && s.subrange(k, k + t.len()) == t
}

/// Whether `cs` holds `t` at index `k`.
pub fn matches_at(cs: &Vec<char>, t: &Vec<char>, k: usize) -> (r: bool)
    ensures
        r == occurs_at(cs@, t@, k as int),
{
    if k > cs.len() || t.len() > cs.len() - k {
        return false;
    }
    let mut i: usize = 0;
    while i < t.len()
        invariant
            i <= t@.len(),
            k + t.len() <= cs.len(),
            k + t@.len() <= cs@.len(),
            forall|j: int| 0 <= j < i ==> cs@[k + j] == t@[j],
        decreases t.len() - i,
    {
        if cs[k + i] != t[i] {
            assert(cs@.subrange(k as int, k + t@.len())[i as int] != t@[i as int]);
            return false;
        }
        i = i + 1;
    }
    assert(cs@.subrange(k as int, k + t@.len()) =~= t@);
    true
}

/// Whether `s` ends with `t`.
pub fn text_ends_with(s: &str, t: &str) -> (r: bool)
    ensures
        r == ends_with(s@, t@),
{
    let cs = chars_of(s);
    let ts = chars_of(t);
    if ts.len() > cs.len() {
        return false;
    }
    matches_at(&cs, &ts, cs.len() - ts.len())
}

/// `s` with every leading copy of `p` removed, as `str::trim_start_matches`.
pub open spec fn strip_prefixes(s: Seq<char>, p: Seq<char>) -> Seq<char>
    decreases s.len(),
{
    if p.len() > 0 && occurs_at(s, p, 0) {
        strip_prefixes(s.subrange(p.len() as int, s.len() as int), p)
    } else {
        s
    }
}

/// `s` without its leading `/` characters.
pub open spec fn trim_start_slashes(s: Seq<char>) -> Seq<char>
    decreases s.len(),
{
    if s.len() > 0 && s[0] == '/' {
        trim_start_slashes(s.drop_first())
    } else {
        s
    }
}

/// `s` without its trailing `/` characters.
pub open spec fn trim_end_slashes(s: Seq<char>) -> Seq<char>
    decreases s.len(),
{
    if s.len() > 0 && s.last() == '/' {
        trim_end_slashes(s.drop_last())
    } else {
        s
    }
}

/// The index in `lo..=hi` where the leading copies of `p` in `cs[lo..hi]`
/// end.
pub fn skip_prefixes(cs: &Vec<char>, p: &Vec<char>, lo: usize) -> (r: usize)
    requires
        lo <= cs@.len(),
    ensures
        lo <= r <= cs@.len(),
        cs@.subrange(r as int, cs@.len() as int) == strip_prefixes(
            cs@.subrange(lo as int, cs@.len() as int),
            p@,
        ),
    decreases cs@.len() - lo,
{
    let ghost rest = cs@.subrange(lo as int, cs@.len() as int);
    if p.len() > 0 && matches_at(cs, p, lo) {
        proof {
            assert(rest.subrange(0, p@.len() as int) == cs@.subrange(lo as int, lo + p@.len()));
            assert(rest.subrange(p@.len() as int, rest.len() as int) == cs@.subrange(
                lo + p@.len(),
                cs@.len() as int,
            ));
        }
        assert(lo + p.len() <= cs.len());
        skip_prefixes(cs, p, lo + p.len())
    } else {
        proof {
            if p@.len() > 0 && occurs_at(rest, p@, 0) {
                assert(rest.subrange(0, p@.len() as int) == cs@.subrange(lo as int, lo + p@.len()));
            }
        }
        lo
    }
}

/// `s` with every `from` replaced by `to`, left to right, as `str::replace`.
pub open spec fn replace_all(s: Seq<char>, from: Seq<char>, to: Seq<char>) -> Seq<char>
    decreases s.len(),
{
    if from.len() == 0 || s.len() == 0 {
        s
    } else if occurs_at(s, from, 0) {
        to + replace_all(s.subrange(from.len() as int, s.len() as int), from, to)
    } else {
        seq![s[0]] + replace_all(s.drop_first(), from, to)
    }
}

/// `s` with every `from` replaced by `to`.
pub fn replace_text(s: &str, from: &str, to: &str) -> (r: String)
    requires
        from@.len() > 0,
    ensures
        r@ == replace_all(s@, from@, to@),
{
    let cs = chars_of(s);
    let fs = chars_of(from);
    let mut out = String::new();
    let mut i: usize = 0;
    assert(cs@.subrange(0, cs@.len() as int) == cs@);
    assert(out@ + replace_all(s@, from@, to@) == replace_all(s@, from@, to@));
    while i < cs.len()
        invariant
            i <= cs@.len(),
            cs@ == s@,
            fs@ == from@,
            fs@.len() > 0,
            replace_all(s@, from@, to@) == out@ + replace_all(
                cs@.subrange(i as int, cs@.len() as int),
                from@,
                to@,
            ),
        decreases cs.len() - i,
    {
        let ghost rest = cs@.subrange(i as int, cs@.len() as int);
        if matches_at(&cs, &fs, i) {
            proof {
                assert(rest.subrange(0, fs@.len() as int) == cs@.subrange(i as int, i + fs@.len()));
                assert(rest.subrange(fs@.len() as int, rest.len() as int) == cs@.subrange(
                    i + fs@.len(),
                    cs@.len() as int,
                ));
            }
            push_all(&mut out, to);
            i = i + fs.len();
        } else {
            proof {
                if occurs_at(rest, fs@, 0) {
                    assert(rest.subrange(0, fs@.len() as int) == cs@.subrange(i as int, i + fs@.len()));
                }
                assert(rest.drop_first() == cs@.subrange(i + 1, cs@.len() as int));
                assert(rest[0] == cs@[i as int]);
            }
            push_char(&mut out, cs[i]);
            i = i + 1;
        }
    }
    proof {
        assert(cs@.subrange(i as int, cs@.len() as int).len() == 0);
        assert(out@ + Seq::<char>::empty() == out@);
    }
    out
}

/// `k` is where `t` first occurs in `s`, or the length of `s`.
pub open spec fn first_occurrence(s: Seq<char>, t: Seq<char>, k: int) -> bool {
    &&& 0 <= k <= s.len()
    &&& forall|j: int| 0 <= j < k ==> !occurs_at(s, t, j)
    &&& k < s.len() ==> occurs_at(s, t, k)
}

/// What comes before the first `t` in `s`, or all of `s`: the first piece
/// that `str::split` gives.
pub open spec fn before_first(s: Seq<char>, t: Seq<char>) -> Seq<char> {
    let k = choose|k: int| first_occurrence(s, t, k);
    s.subrange(0, k)
}

/// What comes before the first `t` in `s`, or all of `s`.
pub fn text_before(s: &str, t: &str) -> (r: String)
    ensures
        r@ == before_first(s@, t@),
{
    let cs = chars_of(s);
    let ts = chars_of(t);
    let mut k: usize = 0;
    while k < cs.len() && !matches_at(&cs, &ts, k)
        invariant
            k <= cs@.len(),
            cs@ == s@,
            ts@ == t@,
            forall|j: int| 0 <= j < k ==> !occurs_at(s@, t@, j),
        decreases cs.len() - k,
    {
        k = k + 1;
    }
    proof {
        assert(first_occurrence(s@, t@, k as int));
        let k2 = choose|k2: int| first_occurrence(s@, t@, k2);
        if k2 < k {
        } else if k2 > k {
        }
        assert(k2 == k);
    }
    string_of(&cs, 0, k)
}

} // verus!
