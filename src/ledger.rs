//! The ledger of finished work: a text of lines `<url> <file name>`, read
//! back as the set of its whitespace-separated tokens.
use vstd::prelude::*;

use crate::text::{chars_of, push_all, push_char, string_of};

verus! {

/// Unicode white space, as `char::is_whitespace` documents it.
pub open spec fn is_ws(c: char) -> bool {
    ||| c == ' '
    ||| '\t' <= c && c <= '\r'
    ||| c == '\u{85}' || c == '\u{a0}' || c == '\u{1680}'
    ||| '\u{2000}' <= c && c <= '\u{200a}'
    ||| c == '\u{2028}' || c == '\u{2029}' || c == '\u{202f}' || c == '\u{205f}' || c == '\u{3000}'
}

fn is_ws_char(c: char) -> (r: bool)
    ensures
        r == is_ws(c),
{
    c == ' ' || ('\t' <= c && c <= '\r') || c == '\u{85}' || c == '\u{a0}' || c == '\u{1680}' || (
    '\u{2000}' <= c && c <= '\u{200a}') || c == '\u{2028}' || c == '\u{2029}' || c == '\u{202f}'
        || c == '\u{205f}' || c == '\u{3000}'
}

pub open spec fn no_ws(t: Seq<char>) -> bool {
    forall|k: int| 0 <= k < t.len() ==> !is_ws(#[trigger] t[k])
}

/// `t` is a whole token of `s` starting at index `i`: a non-empty run of
/// non-space characters with white space, or an end of `s`, on each side.
pub open spec fn token_at(s: Seq<char>, i: int, t: Seq<char>) -> bool {
    &&& 0 <= i && i + t.len() <= s.len()
    &&& t.len() > 0
    &&& no_ws(t)
    &&& s.subrange(i, i + t.len()) == t
    &&& (i == 0 || is_ws(s[i - 1]))
    &&& (i + t.len() == s.len() || is_ws(s[i + t.len()]))
}

/// The tokens of a ledger text.
pub open spec fn ledger_tokens(s: Seq<char>) -> Set<Seq<char>> {
    Set::new(|t: Seq<char>| exists|i: int| token_at(s, i, t))
}

/// `k` is where the first `?` of `s` stands, or the length of `s`.
pub open spec fn query_start(s: Seq<char>, k: int) -> bool {
    &&& 0 <= k <= s.len()
    &&& forall|j: int| 0 <= j < k ==> s[j] != '?'
    &&& k < s.len() ==> s[k] == '?'
}

/// `k` is just past the last `/` of `p`, or zero.
pub open spec fn name_start(p: Seq<char>, k: int) -> bool {
    &&& 0 <= k <= p.len()
    &&& forall|j: int| k <= j < p.len() ==> p[j] != '/'
    &&& k > 0 ==> p[k - 1] == '/'
}

/// The bare file name of a URL: what follows the last `/` before any query.
pub open spec fn zip_name(url: Seq<char>) -> Seq<char> {
    let q = choose|q: int| query_start(url, q);
    let p = url.subrange(0, q);
    let k = choose|k: int| name_start(p, k);
    p.subrange(k, p.len() as int)
}

/// The bare file name of a URL: what follows the last `/` before any query.
pub fn extract_zip_name(url: &str) -> (r: Option<String>)
    ensures
        r matches Some(n) && n@ == zip_name(url@),
{
    let cs = chars_of(url);
    let mut q: usize = 0;
    while q < cs.len() && cs[q] != '?'
        invariant
            q <= cs@.len(),
            forall|j: int| 0 <= j < q ==> cs@[j] != '?',
        decreases cs.len() - q,
    {
        q = q + 1;
    }
    proof {
        assert(query_start(cs@, q as int));
        let q2 = choose|q2: int| query_start(cs@, q2);
        if q2 < q {
            assert(cs@[q2] != '?');
        } else if q2 > q {
            assert(cs@[q as int] != '?');
        }
    }
    let mut k: usize = q;
    while k > 0 && cs[k - 1] != '/'
        invariant
            k <= q <= cs@.len(),
            forall|j: int| k <= j < q ==> cs@[j] != '/',
        decreases k,
    {
        k = k - 1;
    }
    proof {
        let p = cs@.subrange(0, q as int);
        assert(name_start(p, k as int));
        let k2 = choose|k2: int| name_start(p, k2);
        if k2 < k {
            assert(p[k - 1] == '/');
        } else if k2 > k {
            assert(p[k2 - 1] == '/');
        }
        assert(p.subrange(k as int, p.len() as int) == cs@.subrange(k as int, q as int));
    }
    Some(string_of(&cs, k, q))
}

/// The ledger line that records a finished item, end of line included.
pub open spec fn ledger_line_of(url: Seq<char>) -> Seq<char> {
    url + seq![' '] + zip_name(url) + seq!['\n']
}

/// The line that records `url` as finished: the URL and its file name.
pub fn ledger_line(url: &str) -> (r: String)
    ensures
        r@ == ledger_line_of(url@),
{
    let mut line = String::new();
    push_all(&mut line, url);
    push_char(&mut line, ' ');
    let name = extract_zip_name(url);
    match name {
        Some(n) => push_all(&mut line, n.as_str()),
        None => {},
    }
    push_char(&mut line, '\n');
    line
}

/// Some element of `ms` reads as `t`.
pub open spec fn holds(ms: Seq<String>, t: Seq<char>) -> bool {
    exists|k: int| 0 <= k < ms.len() && #[trigger] ms[k]@ == t
}

/// `t` is a token of `s` followed by white space before index `i`.
pub open spec fn token_ending_before(s: Seq<char>, t: Seq<char>, i: int) -> bool {
    exists|j: int| token_at(s, j, t) && j + t.len() < i
}

/// The set of finished work, as read from the ledger's text.
pub struct Ledger {
    members: Vec<String>,
}

impl Ledger {
    /// The tokens the ledger holds.
    pub closed spec fn view(&self) -> Set<Seq<char>> {
        Set::new(|t: Seq<char>| holds(self.members@, t))
    }

    /// The ledger a text holds: every whitespace-separated token of it.
    pub fn load(contents: &str) -> (r: Ledger)
        ensures
            r.view() == ledger_tokens(contents@),
    {
        let cs = chars_of(contents);
        let ghost s = contents@;
        let mut members: Vec<String> = Vec::new();
        let mut start: usize = 0;
        let mut i: usize = 0;
        while i < cs.len()
            invariant
                cs@ == s,
                start <= i <= cs@.len(),
                start == 0 || is_ws(s[start - 1]),
                forall|j: int| start <= j < i ==> !is_ws(#[trigger] s[j]),
                forall|t: Seq<char>| #[trigger] holds(members@, t) <==> token_ending_before(s, t, i as int),
            decreases cs.len() - i,
        {
            let ws = is_ws_char(cs[i]);
            let ghost before = members@;
            if ws && start < i {
                let tok = string_of(&cs, start, i);
                members.push(tok);
                proof {
                    let t0 = s.subrange(start as int, i as int);
                    assert(token_at(s, start as int, t0)) by {
                        assert(s.subrange(start as int, start + t0.len()) == t0);
                        assert forall|q: int| 0 <= q < t0.len() implies !is_ws(#[trigger] t0[q]) by {
                            assert(t0[q] == s[start + q]);
                        }
                    }
                    assert forall|t: Seq<char>| #[trigger] holds(members@, t) <==> token_ending_before(s, t, i + 1) by {
                        if token_ending_before(s, t, i + 1) {
                            let j = choose|j: int| token_at(s, j, t) && j + t.len() < i + 1;
                            if j + t.len() == i {
                                if j < start {
                                    assert(t[start - 1 - j] == s[start - 1]);
                                } else if j > start {
                                    assert(!is_ws(s[j - 1]));
                                }
                                assert(t == t0);
                                assert(members@[before.len() as int]@ == t);
                            } else {
                                assert(token_ending_before(s, t, i as int));
                                assert(holds(before, t));
                                let k = choose|k: int| 0 <= k < before.len() && #[trigger] before[k]@ == t;
                                assert(members@[k] == before[k]);
                                assert(members@[k]@ == t);
                            }
                        }
                        if holds(members@, t) {
                            let k = choose|k: int| 0 <= k < members@.len() && #[trigger] members@[k]@ == t;
                            if k < before.len() {
                                assert(members@[k] == before[k]);
                                assert(holds(before, t));
                                lemma_ending_before_grows(s, t, i as int);
                            } else {
                                assert(t == t0);
                                assert(token_at(s, start as int, t) && start + t.len() < i + 1);
                            }
                        }
                    }
                }
            } else {
                proof {
                    assert forall|t: Seq<char>| #[trigger] holds(members@, t) <==> token_ending_before(s, t, i + 1) by {
                        if token_ending_before(s, t, i + 1) {
                            let j = choose|j: int| token_at(s, j, t) && j + t.len() < i + 1;
                            if j + t.len() == i {
                                if ws {
                                    assert(t[t.len() - 1] == s[i - 1]);
                                    if j < start {
                                        assert(t[start - 1 - j] == s[start - 1]);
                                    }
                                }
                            }
                        }
                        if holds(members@, t) {
                            lemma_ending_before_grows(s, t, i as int);
                        }
                    }
                }
            }
            if ws {
                start = i + 1;
            }
            i = i + 1;
        }
        let ghost before = members@;
        if start < cs.len() {
            let tok = string_of(&cs, start, cs.len());
            members.push(tok);
        }
        proof {
            let n = s.len() as int;
            let t0 = s.subrange(start as int, n);
            if start < n {
                assert(token_at(s, start as int, t0)) by {
                    assert(s.subrange(start as int, start + t0.len()) == t0);
                    assert forall|q: int| 0 <= q < t0.len() implies !is_ws(#[trigger] t0[q]) by {
                        assert(t0[q] == s[start + q]);
                    }
                }
            }
            let v = Set::new(|t: Seq<char>| holds(members@, t));
            assert forall|t: Seq<char>| #[trigger] v.contains(t) <==> ledger_tokens(s).contains(t) by {
                if exists|j: int| token_at(s, j, t) {
                    let j = choose|j: int| token_at(s, j, t);
                    if j + t.len() == n {
                        if start == n {
                            assert(t[t.len() - 1] == s[n - 1]);
                            if j < start {
                                assert(t[start - 1 - j] == s[start - 1]);
                            }
                        }
                        if j < start {
                            assert(t[start - 1 - j] == s[start - 1]);
                        } else if j > start {
                            assert(!is_ws(s[j - 1]));
                        }
                        assert(t == t0);
                        assert(members@[before.len() as int]@ == t);
                    } else {
                        assert(token_ending_before(s, t, n));
                        assert(holds(before, t));
                        let k = choose|k: int| 0 <= k < before.len() && #[trigger] before[k]@ == t;
                        assert(members@[k] == before[k]);
                        assert(members@[k]@ == t);
                    }
                }
                if v.contains(t) {
                    let k = choose|k: int| 0 <= k < members@.len() && #[trigger] members@[k]@ == t;
                    if k < before.len() {
                        assert(members@[k] == before[k]);
                        assert(holds(before, t));
                        let j = choose|j: int| token_at(s, j, t) && j + t.len() < n;
                        assert(token_at(s, j, t));
                    } else {
                        assert(t == t0);
                        assert(token_at(s, start as int, t));
                    }
                }
            }
            assert(v =~= ledger_tokens(s));
        }
        Ledger { members }
    }

    /// The tokens, in the order the text gave them.
    pub fn members(&self) -> (r: &Vec<String>)
        ensures
            forall|t: Seq<char>| self.view().contains(t) <==> exists|k: int| 0 <= k < r@.len() && #[trigger] r@[k]@ == t,
    {
        &self.members
    }

    /// Whether the ledger holds the text `t`.
    pub fn contains(&self, t: &str) -> (r: bool)
        ensures
            r == self.view().contains(t@),
    {
        let wanted = t.to_owned();
        let mut k: usize = 0;
        while k < self.members.len()
            invariant
                wanted@ == t@,
                k <= self.members@.len(),
                forall|j: int| 0 <= j < k ==> self.members@[j]@ != t@,
            decreases self.members.len() - k,
        {
            if self.members[k].eq(&wanted) {
                return true;
            }
            k = k + 1;
        }
        false
    }

    /// Whether a work item is finished: the ledger holds its URL or its
    /// bare file name.
    pub fn is_processed(&self, url: &str) -> (r: bool)
        ensures
            r == (self.view().contains(url@) || self.view().contains(zip_name(url@))),
    {
        if self.contains(url) {
            return true;
        }
        match extract_zip_name(url) {
            Some(name) => self.contains(name.as_str()),
            None => false,
        }
    }
}

proof fn lemma_ending_before_grows(s: Seq<char>, t: Seq<char>, i: int)
    requires
        token_ending_before(s, t, i),
    ensures
        token_ending_before(s, t, i + 1),
{
    let j = choose|j: int| token_at(s, j, t) && j + t.len() < i;
    assert(token_at(s, j, t) && j + t.len() < i + 1);
}

proof fn lemma_query_start_exists(s: Seq<char>)
    ensures
        exists|q: int| query_start(s, q),
    decreases s.len(),
{
    if s.len() == 0 {
        assert(query_start(s, 0));
    } else {
        let d = s.drop_last();
        lemma_query_start_exists(d);
        let q = choose|q: int| query_start(d, q);
        assert(forall|j: int| 0 <= j < d.len() ==> d[j] == s[j]);
        if q < d.len() {
            assert(query_start(s, q));
        } else if s.last() == '?' {
            assert(query_start(s, q));
        } else {
            assert(query_start(s, s.len() as int));
        }
    }
}

proof fn lemma_name_start_exists(p: Seq<char>)
    ensures
        exists|k: int| name_start(p, k),
    decreases p.len(),
{
    if p.len() == 0 {
        assert(name_start(p, 0));
    } else if p.last() == '/' {
        assert(name_start(p, p.len() as int));
    } else {
        let d = p.drop_last();
        lemma_name_start_exists(d);
        let k = choose|k: int| name_start(d, k);
        assert(forall|j: int| 0 <= j < d.len() ==> d[j] == p[j]);
        assert(name_start(p, k));
    }
}

/// Recording an item and reading the ledger back gives a set that holds
/// both the item's URL and its file name, where the text so far ends at a
/// line or word boundary, the URL holds no white space, and its file name
/// is not empty.
pub proof fn lemma_record_then_load(contents: Seq<char>, url: Seq<char>)
    requires
        contents.len() == 0 || is_ws(contents.last()),
        url.len() > 0,
        no_ws(url),
        zip_name(url).len() > 0,
    ensures
        ledger_tokens(contents + ledger_line_of(url)).contains(url),
        ledger_tokens(contents + ledger_line_of(url)).contains(zip_name(url)),
{
    let s = contents + ledger_line_of(url);
    let n = zip_name(url);
    let c = contents.len() as int;
    let u = url.len() as int;
    let q = choose|q: int| query_start(url, q);
    let p = url.subrange(0, q);
    let k = choose|k: int| name_start(p, k);
    lemma_query_start_exists(url);
    lemma_name_start_exists(p);
    assert(s.subrange(c, c + u) == url);
    assert(token_at(s, c, url));
    assert(n == url.subrange(k, q));
    assert forall|j: int| 0 <= j < n.len() implies !is_ws(#[trigger] n[j]) by {
        assert(n[j] == url[k + j]);
    }
    assert(s.subrange(c + u + 1, c + u + 1 + n.len()) == n);
    assert(token_at(s, c + u + 1, n));
}

} // verus!
