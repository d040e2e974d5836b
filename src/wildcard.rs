//! Glob-style matching of partition keys: `*` stands for any run of
//! characters, `?` for exactly one, and every other character for itself.
use vstd::prelude::*;

use crate::text::{chars_of, push_all, push_char};

verus! {

/// Whether the whole of `t` matches the glob pattern `p`.
pub open spec fn glob_matches(t: Seq<char>, p: Seq<char>) -> bool
    decreases p.len(), t.len(),
{
    if p.len() == 0 {
        t.len() == 0
    } else if p[0] == '*' {
        glob_matches(t, p.drop_first()) || (t.len() > 0 && glob_matches(t.drop_first(), p))
    } else if t.len() == 0 {
        false
    } else if p[0] == '?' || p[0] == t[0] {
        glob_matches(t.drop_first(), p.drop_first())
    } else {
        false
    }
}

/// The characters that have a meaning of their own in a regular expression.
pub open spec fn is_regex_meta(c: char) -> bool {
    c == '\\' || c == '.' || c == '+' || c == '*' || c == '?' || c == '(' || c == ')' || c == '|'
        || c == '[' || c == ']' || c == '{' || c == '}' || c == '^' || c == '$' || c == '#'
        || c == '&' || c == '-' || c == '~'
}

/// The regular-expression text that stands for one glob character.
pub open spec fn glob_piece(c: char) -> Seq<char> {
    if c == '*' {
        seq!['.', '*']
    } else if c == '?' {
        seq!['.']
    } else if is_regex_meta(c) {
        seq!['\\', c]
    } else {
        seq![c]
    }
}

/// The regular-expression text for the glob pattern `p`, without anchors.
pub open spec fn glob_body(p: Seq<char>) -> Seq<char>
    decreases p.len(),
{
    if p.len() == 0 {
        Seq::empty()
    } else {
        glob_body(p.drop_last()) + glob_piece(p.last())
    }
}

/// The anchored regular expression, with `.` matching every character,
/// that accepts exactly the texts matching the glob pattern `p`.
pub open spec fn glob_regex(p: Seq<char>) -> Seq<char> {
    seq!['(', '?', 's', ')', '^'] + glob_body(p) + seq!['$']
}

/// Whether the regex engine accepts the pattern `re` (it refuses only
/// malformed patterns and those over its size limit).
pub uninterp spec fn regex_compiles(re: Seq<char>) -> bool;

/// Relies on regex::Regex::new, which fails exactly where the pattern is
/// refused, and on Regex::is_match. For a pattern built by `glob_regex` the
/// documented syntax reads: `(?s)` lets `.` match any character, `^` and `$`
/// anchor at the ends of the text, `.*` matches any run, and a backslash
/// before a meta character, or a plain character, matches that character.
#[verifier::external_body]
fn regex_is_match(re: &str, text: &str) -> (r: Option<bool>)
    ensures
        r is Some <==> regex_compiles(re@),
        forall|p: Seq<char>|
            #[trigger] glob_regex(p) == re@ && r is Some ==> r->0 == glob_matches(text@, p),
{
    regex::Regex::new(re).ok().map(|m| m.is_match(text))
}

/// Builds the anchored regular expression for a glob pattern.
pub fn glob_to_regex(pattern: &str) -> (r: String)
    ensures
        r@ == glob_regex(pattern@),
{
    let cs = chars_of(pattern);
    let mut r = String::new();
    push_all(&mut r, "(?s)^");
    proof {
        reveal_strlit("(?s)^");
    }
    let mut i: usize = 0;
    while i < cs.len()
        invariant
            i <= cs@.len(),
            cs@ == pattern@,
            r@ == seq!['(', '?', 's', ')', '^'] + glob_body(cs@.subrange(0, i as int)),
        decreases cs.len() - i,
    {
        let c = cs[i];
        if c == '*' {
            push_char(&mut r, '.');
            push_char(&mut r, '*');
        } else if c == '?' {
            push_char(&mut r, '.');
        } else {
            if c == '\\' || c == '.' || c == '+' || c == '*' || c == '?' || c == '(' || c == ')'
                || c == '|' || c == '[' || c == ']' || c == '{' || c == '}' || c == '^' || c
                == '$' || c == '#' || c == '&' || c == '-' || c == '~' {
                push_char(&mut r, '\\');
            }
            push_char(&mut r, c);
        }
        proof {
            let pre = cs@.subrange(0, i + 1);
            assert(pre.drop_last() == cs@.subrange(0, i as int));
            assert(pre.last() == c);
        }
        i = i + 1;
    }
    push_char(&mut r, '$');
    assert(cs@.subrange(0, cs@.len() as int) == cs@);
    r
}

/// Whether the whole of `text` matches the glob `pattern`. A pattern whose
/// regular expression the engine refuses matches nothing.
pub fn wildcard_match(text: &str, pattern: &str) -> (r: bool)
    ensures
        r == (regex_compiles(glob_regex(pattern@)) && glob_matches(text@, pattern@)),
{
    let re = glob_to_regex(pattern);
    match regex_is_match(re.as_str(), text) {
        Some(b) => b,
        None => false,
    }
}

/// A lone `*` matches every text.
pub proof fn lemma_star_matches_all(t: Seq<char>)
    ensures
        glob_matches(t, seq!['*']),
    decreases t.len(),
{
    assert(seq!['*'].drop_first() == Seq::<char>::empty());
    if t.len() > 0 {
        lemma_star_matches_all(t.drop_first());
    } else {
        assert(glob_matches(t, Seq::empty()));
    }
}

/// A text free of `*` and `?` matches itself as a pattern.
pub proof fn lemma_literal_matches_itself(t: Seq<char>)
    requires
        forall|i: int| 0 <= i < t.len() ==> t[i] != '*' && t[i] != '?',
    ensures
        glob_matches(t, t),
    decreases t.len(),
{
    if t.len() > 0 {
        assert forall|i: int| 0 <= i < t.drop_first().len() implies t.drop_first()[i] != '*'
            && t.drop_first()[i] != '?' by {
            assert(t.drop_first()[i] == t[i + 1]);
        }
        lemma_literal_matches_itself(t.drop_first());
    }
}

} // verus!
