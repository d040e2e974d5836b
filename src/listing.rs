//! Listing a prefix of the remote store: reading one result page, ordering
//! the entries, and following continuation markers from page to page.
use quick_xml::events::Event;
use vstd::prelude::*;

use crate::number::lower_ascii;
use crate::wildcard::regex_compiles;
use crate::table::{lemma_text_lt_irreflexive, lemma_text_lt_total, lemma_text_lt_transitive, text_lt, text_less};
use crate::text::{
    chars_of, ends_with, push_all, skip_prefixes, string_of, strip_prefixes, text_ends_with,
    trim_end_slashes, trim_start_slashes,
};

verus! {

/// One event of an XML document, as the listing reads it.
#[derive(Debug)]
pub enum XmlEvent {
    /// An opening tag, by name.
    Open(String),
    /// A closing tag, by name.
    Close(String),
    /// Character data, unescaped; `None` where unescaping failed.
    Text(Option<String>),
    /// Anything else: empty tags, comments, declarations, CDATA.
    Other,
    /// The reader found the document malformed; reading stopped there.
    Unreadable,
}

pub enum XmlEventView {
    Open(Seq<char>),
    Close(Seq<char>),
    Text(Option<Seq<char>>),
    Other,
    Unreadable,
}

impl View for XmlEvent {
    type V = XmlEventView;

    open spec fn view(&self) -> XmlEventView {
        match self {
            XmlEvent::Open(n) => XmlEventView::Open(n@),
            XmlEvent::Close(n) => XmlEventView::Close(n@),
            XmlEvent::Text(t) => XmlEventView::Text(
                match t {
                    Some(s) => Some(s@),
                    None => None,
                },
            ),
            XmlEvent::Other => XmlEventView::Other,
            XmlEvent::Unreadable => XmlEventView::Unreadable,
        }
    }
}

pub open spec fn events_view(v: Seq<XmlEvent>) -> Seq<XmlEventView> {
    v.map_values(|e: XmlEvent| e@)
}

/// The events an XML reader with text trimming reports for a document, up
/// to its end, or up to and including an `Unreadable` event at the first
/// malformed part.
pub uninterp spec fn xml_event_seq(xml: Seq<char>) -> Seq<XmlEventView>;

/// Relies on quick_xml's Reader::from_str, Reader::trim_text,
/// Reader::read_event and BytesText::unescape: the document's events in
/// order, ending at the document's end or with `Unreadable` at the first
/// error; the events depend on the text alone.
#[verifier::external_body]
fn read_xml_events(xml: &str) -> (r: Vec<XmlEvent>)
    ensures
        events_view(r@) == xml_event_seq(xml@),
{
    let mut reader = quick_xml::Reader::from_str(xml);
    reader.trim_text(true);
    let mut out = Vec::new();
    loop {
        let event = match reader.read_event() {
            Ok(Event::Start(e)) => XmlEvent::Open(String::from_utf8_lossy(e.name().as_ref()).to_string()),
            Ok(Event::End(e)) => XmlEvent::Close(String::from_utf8_lossy(e.name().as_ref()).to_string()),
            Ok(Event::Text(e)) => XmlEvent::Text(e.unescape().ok().map(|t| t.to_string())),
            Ok(Event::Eof) => break,
            Ok(_) => XmlEvent::Other,
            Err(_) => break out.push(XmlEvent::Unreadable),
        };
        out.push(event);
    }
    out
}

/// The lower-case form of a text.
pub uninterp spec fn lower_of(s: Seq<char>) -> Seq<char>;

/// Relies on str::to_lowercase: the result depends on the characters alone,
/// and on ASCII text it maps `A`-`Z` to `a`-`z` and keeps every other
/// character.
#[verifier::external_body]
fn lowercase(s: &str) -> (r: String)
    ensures
        r@ == lower_of(s@),
        (forall|i: int| 0 <= i < s@.len() ==> #[trigger] s@[i] <= '\u{7f}') ==> r@ == lower_ascii(s@),
{
    s.to_lowercase()
}

pub open spec fn entries_view(v: Seq<(String, bool)>) -> Seq<(Seq<char>, bool)> {
    v.map_values(|e: (String, bool)| (e.0@, e.1))
}

/// Where the reading of a page stands after some events.
pub struct PageScan {
    pub tag: Seq<char>,
    pub in_prefixes: bool,
    pub truncated: bool,
    pub next_marker: Option<Seq<char>>,
    pub last_key: Option<Seq<char>>,
    pub entries: Seq<(Seq<char>, bool)>,
    pub failed: bool,
}

pub open spec fn common_prefixes_tag() -> Seq<char> {
    seq!['C', 'o', 'm', 'm', 'o', 'n', 'P', 'r', 'e', 'f', 'i', 'x', 'e', 's']
}

pub open spec fn prefix_tag() -> Seq<char> {
    seq!['P', 'r', 'e', 'f', 'i', 'x']
}

pub open spec fn key_tag() -> Seq<char> {
    seq!['K', 'e', 'y']
}

pub open spec fn truncated_tag() -> Seq<char> {
    seq!['I', 's', 'T', 'r', 'u', 'n', 'c', 'a', 't', 'e', 'd']
}

pub open spec fn next_marker_tag() -> Seq<char> {
    seq!['N', 'e', 'x', 't', 'M', 'a', 'r', 'k', 'e', 'r']
}

pub open spec fn archive_suffix() -> Seq<char> {
    seq!['.', 'z', 'i', 'p']
}

pub open spec fn true_text() -> Seq<char> {
    seq!['t', 'r', 'u', 'e']
}

/// The name of a sub-directory entry: the text without the queried prefix
/// and without slashes at either end.
pub open spec fn dir_name(text: Seq<char>, prefix: Seq<char>) -> Seq<char> {
    trim_end_slashes(trim_start_slashes(strip_prefixes(text, prefix)))
}

/// How one event changes the reading of a page.
pub open spec fn scan_step(prefix: Seq<char>, st: PageScan, ev: XmlEventView) -> PageScan {
    if st.failed {
        st
    } else {
        match ev {
            XmlEventView::Open(name) => PageScan {
                tag: name,
                in_prefixes: st.in_prefixes || ends_with(name, common_prefixes_tag()),
                ..st
            },
            XmlEventView::Close(name) => if ends_with(name, common_prefixes_tag()) {
                PageScan { in_prefixes: false, ..st }
            } else {
                st
            },
            XmlEventView::Text(None) => PageScan { failed: true, ..st },
            XmlEventView::Unreadable => PageScan { failed: true, ..st },
            XmlEventView::Text(Some(text)) => if ends_with(st.tag, prefix_tag()) && st.in_prefixes {
                let name = dir_name(text, prefix);
                if name.len() > 0 {
                    PageScan { entries: st.entries.push((name, true)), ..st }
                } else {
                    st
                }
            } else if ends_with(st.tag, key_tag()) {
                let name = strip_prefixes(text, prefix);
                if ends_with(text, archive_suffix()) && name.len() > 0 {
                    PageScan { last_key: Some(text), entries: st.entries.push((name, false)), ..st }
                } else {
                    PageScan { last_key: Some(text), ..st }
                }
            } else if ends_with(st.tag, truncated_tag()) {
                PageScan { truncated: lower_of(text) == true_text(), ..st }
            } else if ends_with(st.tag, next_marker_tag()) {
                PageScan { next_marker: Some(text), ..st }
            } else {
                st
            },
            XmlEventView::Other => st,
        }
    }
}

/// The reading of a page after the events `evs`.
pub open spec fn scan_events(prefix: Seq<char>, evs: Seq<XmlEventView>) -> PageScan
    decreases evs.len(),
{
    if evs.len() == 0 {
        PageScan {
            tag: Seq::empty(),
            in_prefixes: false,
            truncated: false,
            next_marker: None,
            last_key: None,
            entries: Seq::empty(),
            failed: false,
        }
    } else {
        scan_step(prefix, scan_events(prefix, evs.drop_last()), evs.last())
    }
}

/// The marker that continues a listing after a page: the page's explicit
/// next marker, else its last key; none where the page is not truncated.
pub open spec fn continuation_of(st: PageScan) -> Option<Seq<char>> {
    if !st.truncated {
        None
    } else if st.next_marker is Some {
        st.next_marker
    } else {
        st.last_key
    }
}

/// Entry `a` comes strictly before entry `b`: directories first, then by
/// name.
pub open spec fn entry_lt(a: (Seq<char>, bool), b: (Seq<char>, bool)) -> bool {
    (a.1 && !b.1) || (a.1 == b.1 && text_lt(a.0, b.0))
}

pub open spec fn entry_le(a: (Seq<char>, bool), b: (Seq<char>, bool)) -> bool {
    !entry_lt(b, a)
}

pub open spec fn entries_sorted(s: Seq<(Seq<char>, bool)>) -> bool {
    forall|i: int, j: int| 0 <= i < j < s.len() ==> entry_le(#[trigger] s[i], #[trigger] s[j])
}

/// Inserts `e` into ordered entries after every entry that may precede it.
pub open spec fn insert_entry(s: Seq<(Seq<char>, bool)>, e: (Seq<char>, bool)) -> Seq<
    (Seq<char>, bool),
>
    decreases s.len(),
{
    if s.len() == 0 {
        seq![e]
    } else if entry_le(s.last(), e) {
        s.push(e)
    } else {
        insert_entry(s.drop_last(), e).push(s.last())
    }
}

/// The entries ordered: directories first, each group by name.
pub open spec fn sort_entries(s: Seq<(Seq<char>, bool)>) -> Seq<(Seq<char>, bool)>
    decreases s.len(),
{
    if s.len() == 0 {
        s
    } else {
        insert_entry(sort_entries(s.drop_last()), s.last())
    }
}

pub proof fn lemma_entry_le_transitive(a: (Seq<char>, bool), b: (Seq<char>, bool), c: (Seq<char>, bool))
    requires
        entry_le(a, b),
        entry_le(b, c),
    ensures
        entry_le(a, c),
{
    lemma_text_lt_total(a.0, b.0);
    lemma_text_lt_total(b.0, c.0);
    lemma_text_lt_total(a.0, c.0);
    if entry_lt(c, a) {
        if a.1 == b.1 && b.1 == c.1 {
            if text_lt(c.0, a.0) && !text_lt(b.0, a.0) && !text_lt(c.0, b.0) {
                if a.0 != b.0 {
                    lemma_text_lt_transitive(c.0, a.0, b.0);
                }
            }
        }
    }
}

pub proof fn lemma_entry_lt_asymmetric(a: (Seq<char>, bool), b: (Seq<char>, bool))
    requires
        entry_lt(a, b),
    ensures
        entry_le(a, b),
{
    if entry_lt(b, a) {
        lemma_text_lt_transitive(a.0, b.0, a.0);
        lemma_text_lt_irreflexive(a.0);
    }
}

proof fn lemma_insert_entry_contains(s: Seq<(Seq<char>, bool)>, e: (Seq<char>, bool))
    ensures
        insert_entry(s, e).len() == s.len() + 1,
        forall|x: (Seq<char>, bool)| #[trigger] insert_entry(s, e).contains(x) <==> (s.contains(x) || x == e),
    decreases s.len(),
{
    if s.len() > 0 && !entry_le(s.last(), e) {
        lemma_insert_entry_contains(s.drop_last(), e);
        crate::table::lemma_push_contains(insert_entry(s.drop_last(), e), s.last());
        crate::table::lemma_last_contains(s);
    } else if s.len() > 0 {
        crate::table::lemma_push_contains(s, e);
    } else {
        crate::table::lemma_push_contains(s, e);
        assert(seq![e] == s.push(e));
    }
}

proof fn lemma_insert_entry_sorted(s: Seq<(Seq<char>, bool)>, e: (Seq<char>, bool))
    requires
        entries_sorted(s),
    ensures
        entries_sorted(insert_entry(s, e)),
    decreases s.len(),
{
    if s.len() > 0 {
        if entry_le(s.last(), e) {
            assert forall|i: int, j: int| 0 <= i < j < s.len() + 1 implies entry_le(
                #[trigger] s.push(e)[i],
                #[trigger] s.push(e)[j],
            ) by {
                if j == s.len() as int && i < s.len() - 1 {
                    lemma_entry_le_transitive(s[i], s.last(), e);
                }
            }
        } else {
            let d = s.drop_last();
            lemma_insert_entry_sorted(d, e);
            lemma_insert_entry_contains(d, e);
            let t = insert_entry(d, e);
            assert forall|i: int, j: int| 0 <= i < j < t.len() + 1 implies entry_le(
                #[trigger] t.push(s.last())[i],
                #[trigger] t.push(s.last())[j],
            ) by {
                if j == t.len() as int {
                    assert(t.contains(t[i]));
                    if t[i] == e {
                        lemma_entry_lt_asymmetric(e, s.last());
                    } else {
                        let k = choose|k: int| 0 <= k < d.len() && d[k] == t[i];
                        assert(s[k] == t[i]);
                    }
                }
            }
        }
    }
}

/// Ordering keeps exactly the entries it was given, and orders them.
pub proof fn lemma_sort_entries(s: Seq<(Seq<char>, bool)>)
    ensures
        sort_entries(s).len() == s.len(),
        entries_sorted(sort_entries(s)),
        forall|x: (Seq<char>, bool)| #[trigger] sort_entries(s).contains(x) <==> s.contains(x),
    decreases s.len(),
{
    if s.len() > 0 {
        let d = s.drop_last();
        lemma_sort_entries(d);
        lemma_insert_entry_sorted(sort_entries(d), s.last());
        lemma_insert_entry_contains(sort_entries(d), s.last());
        crate::table::lemma_last_contains(s);
    }
}

/// Ordering entries that are already in order changes nothing.
pub proof fn lemma_sort_entries_of_sorted(s: Seq<(Seq<char>, bool)>)
    requires
        entries_sorted(s),
    ensures
        sort_entries(s) == s,
    decreases s.len(),
{
    if s.len() > 0 {
        let d = s.drop_last();
        assert(entries_sorted(d)) by {
            assert forall|i: int, j: int| 0 <= i < j < d.len() implies entry_le(
                #[trigger] d[i],
                #[trigger] d[j],
            ) by {
                assert(d[i] == s[i] && d[j] == s[j]);
            }
        }
        lemma_sort_entries_of_sorted(d);
        if d.len() > 0 {
            assert(entry_le(s[d.len() - 1], s[s.len() - 1]));
        } else {
            assert(seq![s.last()] == s);
        }
        assert(d.push(s.last()) == s);
    }
}

proof fn lemma_insert_entry_at(s: Seq<(Seq<char>, bool)>, e: (Seq<char>, bool), j: int)
    requires
        0 <= j <= s.len(),
        j > 0 ==> entry_le(s[j - 1], e),
        forall|m: int| j <= m < s.len() ==> !entry_le(#[trigger] s[m], e),
    ensures
        insert_entry(s, e) == s.insert(j, e),
    decreases s.len(),
{
    if s.len() == 0 {
        assert(s.insert(j, e) =~= seq![e]);
    } else if j == s.len() {
        assert(s.insert(j, e) =~= s.push(e));
    } else {
        let d = s.drop_last();
        assert(!entry_le(s[s.len() - 1], e));
        assert forall|m: int| j <= m < d.len() implies !entry_le(#[trigger] d[m], e) by {
            assert(d[m] == s[m]);
        }
        lemma_insert_entry_at(d, e, j);
        assert(d.insert(j, e).push(s.last()) =~= s.insert(j, e));
    }
}

/// Whether entry `a` comes strictly before entry `b`.
fn entry_less(a: &(String, bool), b: &(String, bool)) -> (r: bool)
    ensures
        r == entry_lt((a.0@, a.1), (b.0@, b.1)),
{
    (a.1 && !b.1) || (a.1 == b.1 && text_less(&a.0, &b.0))
}

/// The entries in order: directories first, each group by name.
pub fn sorted_entries(v: &Vec<(String, bool)>) -> (r: Vec<(String, bool)>)
    ensures
        entries_view(r@) == sort_entries(entries_view(v@)),
{
    let ghost all = entries_view(v@);
    let mut out: Vec<(String, bool)> = Vec::new();
    let mut i: usize = 0;
    while i < v.len()
        invariant
            i <= v@.len(),
            all == entries_view(v@),
            entries_view(out@) == sort_entries(all.take(i as int)),
        decreases v.len() - i,
    {
        let e = (v[i].0.clone(), v[i].1);
        let ghost ev = (e.0@, e.1);
        let ghost ov = entries_view(out@);
        proof {
            assert(ev == all[i as int]);
            assert(all.take(i + 1).drop_last() == all.take(i as int));
            lemma_sort_entries(all.take(i as int));
        }
        let mut j: usize = out.len();
        while j > 0 && entry_less(&e, &out[j - 1])
            invariant
                j <= out@.len(),
                ov == entries_view(out@),
                ev == (e.0@, e.1),
                forall|m: int| j <= m < ov.len() ==> entry_lt(ev, #[trigger] ov[m]),
            decreases j,
        {
            j = j - 1;
        }
        proof {
            assert(forall|m: int| j <= m < ov.len() ==> !entry_le(#[trigger] ov[m], ev));
            lemma_insert_entry_at(ov, ev, j as int);
        }
        let ghost before = out@;
        out.insert(j, e);
        proof {
            assert(entries_view(out@) =~= ov.insert(j as int, ev)) by {
                assert forall|q: int| 0 <= q < out@.len() implies #[trigger] entries_view(out@)[q]
                    == ov.insert(j as int, ev)[q] by {
                    if q < j {
                        assert(out@[q] == before[q]);
                    } else if q > j {
                        assert(out@[q] == before[q - 1]);
                    }
                }
            }
        }
        i = i + 1;
    }
    assert(all.take(v@.len() as int) == all);
    out
}

/// Once the reading of a page has failed, it stays failed.
proof fn lemma_failure_stays(prefix: Seq<char>, evs: Seq<XmlEventView>, n: int)
    requires
        0 <= n <= evs.len(),
        scan_events(prefix, evs.take(n)).failed,
    ensures
        scan_events(prefix, evs).failed,
    decreases evs.len() - n,
{
    if n == evs.len() {
        assert(evs.take(n) == evs);
    } else {
        let d = evs.drop_last();
        assert(d.take(n) == evs.take(n));
        lemma_failure_stays(prefix, d, n);
    }
}

/// Why a listing failed.
#[derive(Debug)]
pub enum ListingError {
    /// A page was malformed XML, or held text that could not be unescaped.
    MalformedPage,
    /// The index page names no bucket URL.
    BucketUrlMissing,
}

pub open spec fn opt_view(o: Option<String>) -> Option<Seq<char>> {
    match o {
        Some(s) => Some(s@),
        None => None,
    }
}

/// The name of a sub-directory entry.
fn directory_name(text: &str, prefix: &Vec<char>) -> (r: String)
    ensures
        r@ == dir_name(text@, prefix@),
{
    let cs = chars_of(text);
    let mut lo = skip_prefixes(&cs, prefix, 0);
    assert(cs@.subrange(0, cs@.len() as int) == cs@);
    let ghost stripped = strip_prefixes(text@, prefix@);
    while lo < cs.len() && cs[lo] == '/'
        invariant
            lo <= cs@.len(),
            trim_start_slashes(stripped) == trim_start_slashes(cs@.subrange(lo as int, cs@.len() as int)),
        decreases cs.len() - lo,
    {
        assert(cs@.subrange(lo as int, cs@.len() as int).drop_first() == cs@.subrange(lo + 1, cs@.len() as int));
        lo = lo + 1;
    }
    let ghost started = trim_start_slashes(stripped);
    assert(started == cs@.subrange(lo as int, cs@.len() as int));
    let mut hi = cs.len();
    while hi > lo && cs[hi - 1] == '/'
        invariant
            lo <= hi <= cs@.len(),
            trim_end_slashes(started) == trim_end_slashes(cs@.subrange(lo as int, hi as int)),
        decreases hi,
    {
        assert(cs@.subrange(lo as int, hi as int).drop_last() == cs@.subrange(lo as int, hi - 1));
        hi = hi - 1;
    }
    string_of(&cs, lo, hi)
}

/// Reads one page's events: the entries it lists, in order, whether the
/// listing goes on, and the marker to go on from.
pub fn parse_listing_events(prefix: &str, events: &Vec<XmlEvent>) -> (r: Result<
    (Vec<(String, bool)>, bool, Option<String>),
    ListingError,
>)
    ensures
        ({
            let st = scan_events(prefix@, events_view(events@));
            &&& st.failed ==> (r matches Err(ListingError::MalformedPage))
            &&& !st.failed ==> (r matches Ok((es, t, c)) && entries_view(es@) == sort_entries(
                st.entries,
            ) && t == st.truncated && opt_view(c) == continuation_of(st))
        }),
{
    let ghost evs = events_view(events@);
    let pcs = chars_of(prefix);
    let mut tag = String::new();
    let mut in_prefixes = false;
    let mut truncated = false;
    let mut next_marker: Option<String> = None;
    let mut last_key: Option<String> = None;
    let mut entries: Vec<(String, bool)> = Vec::new();
    let mut i: usize = 0;
    while i < events.len()
        invariant
            i <= events@.len(),
            evs == events_view(events@),
            pcs@ == prefix@,
            ({
                let st = scan_events(prefix@, evs.take(i as int));
                &&& !st.failed
                &&& st.tag == tag@
                &&& st.in_prefixes == in_prefixes
                &&& st.truncated == truncated
                &&& st.next_marker == opt_view(next_marker)
                &&& st.last_key == opt_view(last_key)
                &&& st.entries == entries_view(entries@)
            }),
        decreases events.len() - i,
    {
        let ghost st = scan_events(prefix@, evs.take(i as int));
        proof {
            assert(evs.take(i + 1).drop_last() == evs.take(i as int));
            assert(evs.take(i + 1).last() == events@[i as int]@);
        }
        match &events[i] {
            XmlEvent::Open(name) => {
                let cp = text_ends_with(name.as_str(), "CommonPrefixes");
                proof {
                    reveal_strlit("CommonPrefixes");
                    assert("CommonPrefixes"@ =~= common_prefixes_tag());
                }
                tag = name.clone();
                in_prefixes = in_prefixes || cp;
            },
            XmlEvent::Close(name) => {
                let cp = text_ends_with(name.as_str(), "CommonPrefixes");
                proof {
                    reveal_strlit("CommonPrefixes");
                    assert("CommonPrefixes"@ =~= common_prefixes_tag());
                }
                if cp {
                    in_prefixes = false;
                }
            },
            XmlEvent::Text(None) => {
                proof {
                    lemma_failure_stays(prefix@, evs, i + 1);
                }
                return Err(ListingError::MalformedPage);
            },
            XmlEvent::Text(Some(text)) => {
                proof {
                    reveal_strlit("Prefix");
                    reveal_strlit("Key");
                    reveal_strlit(".zip");
                    reveal_strlit("IsTruncated");
                    reveal_strlit("NextMarker");
                    reveal_strlit("true");
                    assert("Prefix"@ =~= prefix_tag());
                    assert("Key"@ =~= key_tag());
                    assert(".zip"@ =~= archive_suffix());
                    assert("IsTruncated"@ =~= truncated_tag());
                    assert("NextMarker"@ =~= next_marker_tag());
                    assert("true"@ =~= true_text());
                }
                if text_ends_with(tag.as_str(), "Prefix") && in_prefixes {
                    let name = directory_name(text.as_str(), &pcs);
                    if !name.as_str().is_empty() {
                        let ghost before = entries@;
                        entries.push((name, true));
                        assert(entries_view(entries@) =~= entries_view(before).push((name@, true)));
                    }
                } else if text_ends_with(tag.as_str(), "Key") {
                    last_key = Some(text.clone());
                    let tcs = chars_of(text.as_str());
                    let lo = skip_prefixes(&tcs, &pcs, 0);
                    assert(tcs@.subrange(0, tcs@.len() as int) == tcs@);
                    if text_ends_with(text.as_str(), ".zip") && lo < tcs.len() {
                        let name = string_of(&tcs, lo, tcs.len());
                        let ghost before = entries@;
                        entries.push((name, false));
                        assert(entries_view(entries@) =~= entries_view(before).push((name@, false)));
                    }
                } else if text_ends_with(tag.as_str(), "IsTruncated") {
                    let low = lowercase(text.as_str());
                    let t = "true".to_owned();
                    truncated = low.eq(&t);
                } else if text_ends_with(tag.as_str(), "NextMarker") {
                    next_marker = Some(text.clone());
                }
            },
            XmlEvent::Unreadable => {
                proof {
                    lemma_failure_stays(prefix@, evs, i + 1);
                }
                return Err(ListingError::MalformedPage);
            },
            XmlEvent::Other => {},
        }
        i = i + 1;
    }
    assert(evs.take(evs.len() as int) == evs);
    let sorted = sorted_entries(&entries);
    let continuation = if truncated {
        match next_marker {
            Some(m) => Some(m),
            None => last_key,
        }
    } else {
        None
    };
    Ok((sorted, truncated, continuation))
}

/// Reads one page of a listing of `prefix`: the entries it lists, in
/// order, whether the listing goes on, and the marker to go on from.
pub fn parse_listing(prefix: &str, xml_content: &str) -> (r: Result<
    (Vec<(String, bool)>, bool, Option<String>),
    ListingError,
>)
    ensures
        ({
            let st = scan_events(prefix@, xml_event_seq(xml_content@));
            &&& st.failed ==> (r matches Err(ListingError::MalformedPage))
            &&& !st.failed ==> (r matches Ok((es, t, c)) && entries_view(es@) == sort_entries(
                st.entries,
            ) && t == st.truncated && opt_view(c) == continuation_of(st))
        }),
{
    let events = read_xml_events(xml_content);
    parse_listing_events(prefix, &events)
}

/// A byte that percent-encoding keeps: an ASCII letter or digit, or one
/// of `-`, `.`, `_`, `~`.
pub open spec fn unreserved(b: u8) -> bool {
    (48 <= b <= 57) || (65 <= b <= 90) || (97 <= b <= 122) || b == 45 || b == 46 || b == 95
        || b == 126
}

/// The upper-case hexadecimal digit of a value below 16.
pub open spec fn hex_digit(d: u8) -> char {
    if d < 10 {
        ((48 + d) as u8) as char
    } else {
        ((55 + d) as u8) as char
    }
}

/// Bytes percent-encoded: kept bytes as themselves, every other byte as
/// `%` and two upper-case hexadecimal digits.
pub open spec fn percent_encoded(b: Seq<u8>) -> Seq<char>
    decreases b.len(),
{
    if b.len() == 0 {
        Seq::empty()
    } else {
        let x = b.last();
        percent_encoded(b.drop_last()) + if unreserved(x) {
            seq![x as char]
        } else {
            seq!['%', hex_digit(x / 16), hex_digit(x % 16)]
        }
    }
}

/// The percent-encoded form of a text: its UTF-8 bytes, percent-encoded.
pub open spec fn url_encoded(s: Seq<char>) -> Seq<char> {
    percent_encoded(vstd::utf8::encode_utf8(s))
}

/// Relies on urlencoding::encode: every UTF-8 byte of the text but ASCII
/// letters, digits and `-`, `.`, `_`, `~` becomes `%` and two upper-case
/// hexadecimal digits.
#[verifier::external_body]
fn url_encode(s: &str) -> (r: String)
    ensures
        r@ == url_encoded(s@),
{
    urlencoding::encode(s).into_owned()
}

/// The text of the first group of the leftmost match of `re` in `hay`.
pub uninterp spec fn regex_capture(re: Seq<char>, hay: Seq<char>) -> Option<Seq<char>>;

/// Relies on regex::Regex::new, which fails exactly where the pattern is
/// refused, and on Regex::captures: the first group of the leftmost match.
#[verifier::external_body]
fn regex_first_group(re: &str, hay: &str) -> (r: Option<Option<String>>)
    ensures
        r is Some <==> regex_compiles(re@),
        r matches Some(g) ==> opt_view(g) == regex_capture(re@, hay@),
{
    regex::Regex::new(re).ok().map(
        |x| x.captures(hay).and_then(|c| c.get(1)).map(|m| m.as_str().to_string()),
    )
}

/// Where the index page of the store lives.
pub const BASE_URL: &'static str = "https://data.binance.vision";

/// The pattern that finds the bucket URL in an index page.
pub const BUCKET_PATTERN: &'static str = "var BUCKET_URL = '(.*?)';";

/// The bucket URL an index page names: the first group of the leftmost
/// match of `BUCKET_PATTERN`.
pub fn bucket_url_from_page(html: &str) -> (r: Result<String, ListingError>)
    ensures
        (regex_compiles(BUCKET_PATTERN@) && regex_capture(BUCKET_PATTERN@, html@) is Some)
            ==> (r matches Ok(u) && u@ == regex_capture(BUCKET_PATTERN@, html@)->0),
        !(regex_compiles(BUCKET_PATTERN@) && regex_capture(BUCKET_PATTERN@, html@) is Some)
            ==> (r matches Err(ListingError::BucketUrlMissing)),
{
    match regex_first_group(BUCKET_PATTERN, html) {
        Some(Some(u)) => Ok(u),
        _ => Err(ListingError::BucketUrlMissing),
    }
}

/// The URL of the index page for a prefix.
pub fn discovery_url(base_url: &str, prefix: &str) -> (r: String)
    ensures
        r@ == base_url@ + "/?prefix="@ + url_encoded(prefix@),
{
    let mut u = String::new();
    push_all(&mut u, base_url);
    push_all(&mut u, "/?prefix=");
    let enc = url_encode(prefix);
    push_all(&mut u, enc.as_str());
    u
}

/// The query of a page request: the delimiter, the prefix, and the marker
/// to continue from, if any.
pub open spec fn page_query(prefix: Seq<char>, marker: Option<Seq<char>>) -> Seq<char> {
    "delimiter=/&prefix="@ + url_encoded(prefix) + match marker {
        Some(m) => "&marker="@ + url_encoded(m),
        None => Seq::empty(),
    }
}

/// Where a listing of a prefix stands.
pub struct ListingView {
    pub prefix: Seq<char>,
    pub entries: Seq<(Seq<char>, bool)>,
    pub marker: Option<Seq<char>>,
    pub finished: bool,
}

/// A listing that has read no page yet.
pub open spec fn listing_start(prefix: Seq<char>) -> ListingView {
    ListingView { prefix, entries: Seq::empty(), marker: None, finished: false }
}

/// How a page changes a listing: its entries are added; the listing ends
/// where the page is not truncated or gives no marker to go on from.
pub open spec fn after_page(
    v: ListingView,
    entries: Seq<(Seq<char>, bool)>,
    truncated: bool,
    continuation: Option<Seq<char>>,
) -> ListingView {
    ListingView {
        prefix: v.prefix,
        entries: v.entries + entries,
        marker: if truncated {
            continuation
        } else {
            v.marker
        },
        finished: !truncated || continuation is None,
    }
}

/// The paginated listing of one prefix: which page to ask for next, and
/// the entries gathered so far.
pub struct Listing {
    prefix: String,
    entries: Vec<(String, bool)>,
    marker: Option<String>,
    finished: bool,
}

impl Listing {
    pub closed spec fn view(&self) -> ListingView {
        ListingView {
            prefix: self.prefix@,
            entries: entries_view(self.entries@),
            marker: opt_view(self.marker),
            finished: self.finished,
        }
    }

    /// A listing of `prefix` that has read no page yet.
    pub fn new(prefix: &str) -> (r: Listing)
        ensures
            r.view() == listing_start(prefix@),
    {
        let r = Listing { prefix: prefix.to_owned(), entries: Vec::new(), marker: None, finished: false };
        assert(r.view().entries =~= Seq::<(Seq<char>, bool)>::empty());
        r
    }

    /// Whether the last page has been read.
    pub fn is_finished(&self) -> (r: bool)
        ensures
            r == self.view().finished,
    {
        self.finished
    }

    /// The query for the next page.
    pub fn request_query(&self) -> (r: String)
        ensures
            r@ == page_query(self.view().prefix, self.view().marker),
    {
        let mut q = String::new();
        push_all(&mut q, "delimiter=/&prefix=");
        let p = url_encode(self.prefix.as_str());
        push_all(&mut q, p.as_str());
        match &self.marker {
            Some(m) => {
                push_all(&mut q, "&marker=");
                let e = url_encode(m.as_str());
                push_all(&mut q, e.as_str());
            },
            None => {},
        }
        q
    }

    /// The URL of the next page, under the bucket URL.
    pub fn request_url(&self, bucket_url: &str) -> (r: String)
        ensures
            r@ == bucket_url@ + "?"@ + page_query(self.view().prefix, self.view().marker),
    {
        let mut u = String::new();
        push_all(&mut u, bucket_url);
        push_all(&mut u, "?");
        let q = self.request_query();
        push_all(&mut u, q.as_str());
        u
    }

    /// Takes in what a page gave: its entries, whether it was truncated, and
    /// the marker to go on from.
    pub fn accept_page(&mut self, page: (Vec<(String, bool)>, bool, Option<String>))
        ensures
            final(self).view() == after_page(
                old(self).view(),
                entries_view(page.0@),
                page.1,
                opt_view(page.2),
            ),
    {
        let (mut batch, truncated, continuation) = page;
        let ghost added = entries_view(batch@);
        let ghost before = entries_view(self.entries@);
        self.entries.append(&mut batch);
        assert(entries_view(self.entries@) =~= before + added);
        self.finished = !truncated || continuation.is_none();
        if truncated {
            self.marker = continuation;
        }
    }

    /// The entries of all pages read, in order: directories first, each
    /// group by name.
    pub fn into_entries(self) -> (r: Vec<(String, bool)>)
        ensures
            entries_view(r@) == sort_entries(self.view().entries),
    {
        sorted_entries(&self.entries)
    }
}

/// A listing whose first page is not truncated ends after that page, and
/// gives exactly that page's entries: directories first, each group by
/// name.
pub proof fn lemma_single_page_listing(prefix: Seq<char>, xml: Seq<char>)
    requires
        !scan_events(prefix, xml_event_seq(xml)).failed,
        !scan_events(prefix, xml_event_seq(xml)).truncated,
    ensures
        ({
            let st = scan_events(prefix, xml_event_seq(xml));
            let page = sort_entries(st.entries);
            let v = after_page(listing_start(prefix), page, st.truncated, continuation_of(st));
            &&& v.finished
            &&& sort_entries(v.entries) == page
            &&& entries_sorted(page)
            &&& page.len() == st.entries.len()
            &&& forall|x: (Seq<char>, bool)| #[trigger] page.contains(x) <==> st.entries.contains(x)
        }),
{
    let st = scan_events(prefix, xml_event_seq(xml));
    let page = sort_entries(st.entries);
    lemma_sort_entries(st.entries);
    assert(Seq::<(Seq<char>, bool)>::empty() + page == page);
    lemma_sort_entries_of_sorted(page);
}

/// After a truncated page with no explicit next marker, the next request
/// carries the page's last key as its marker.
pub proof fn lemma_marker_falls_back_to_last_key(prefix: Seq<char>, xml: Seq<char>, key: Seq<char>)
    requires
        !scan_events(prefix, xml_event_seq(xml)).failed,
        scan_events(prefix, xml_event_seq(xml)).truncated,
        scan_events(prefix, xml_event_seq(xml)).next_marker is None,
        scan_events(prefix, xml_event_seq(xml)).last_key == Some(key),
    ensures
        ({
            let st = scan_events(prefix, xml_event_seq(xml));
            let v = after_page(listing_start(prefix), sort_entries(st.entries), st.truncated, continuation_of(st));
            &&& continuation_of(st) == Some(key)
            &&& !v.finished
            &&& v.marker == Some(key)
            &&& page_query(v.prefix, v.marker) == "delimiter=/&prefix="@ + url_encoded(prefix)
                + "&marker="@ + url_encoded(key)
        }),
{
}

/// The URL of an archive: the store's base URL, the encoded path with its
/// slashes kept and no trailing slash, then the encoded file name.
pub open spec fn archive_url(path: Seq<char>, file_name: Seq<char>) -> Seq<char> {
    BASE_URL@ + "/"@ + trim_end_slashes(crate::text::replace_all(url_encoded(path), "%2F"@, "/"@))
        + "/"@ + url_encoded(file_name)
}

/// The URL of an archive under a listed path.
pub fn encoded_url(path: &str, file_name: &str) -> (r: String)
    ensures
        r@ == archive_url(path@, file_name@),
{
    let enc = url_encode(path);
    proof {
        reveal_strlit("%2F");
    }
    let kept = crate::text::replace_text(enc.as_str(), "%2F", "/");
    let cs = chars_of(kept.as_str());
    let mut hi = cs.len();
    assert(cs@.subrange(0, cs@.len() as int) == cs@);
    while hi > 0 && cs[hi - 1] == '/'
        invariant
            hi <= cs@.len(),
            trim_end_slashes(cs@) == trim_end_slashes(cs@.subrange(0, hi as int)),
        decreases hi,
    {
        assert(cs@.subrange(0, hi as int).drop_last() == cs@.subrange(0, hi - 1));
        hi = hi - 1;
    }
    let mut u = String::new();
    push_all(&mut u, BASE_URL);
    push_all(&mut u, "/");
    let trimmed = string_of(&cs, 0, hi);
    push_all(&mut u, trimmed.as_str());
    push_all(&mut u, "/");
    let name = url_encode(file_name);
    push_all(&mut u, name.as_str());
    u
}

} // verus!
