//! Discovering and planning work: which partitions to harvest, which
//! archives each holds, and which of those the ledger already has. Work is
//! kept per partition key, one group per key, so that one worker owns each
//! partition's dataset.
use vstd::prelude::*;

use crate::ledger::{zip_name, Ledger};
use crate::listing::{archive_url, encoded_url};
use crate::text::{before_first, replace_all, replace_text, text_before};
use crate::wildcard::{glob_matches, glob_regex, regex_compiles, wildcard_match};

verus! {

/// The placeholder that a partition key replaces in a partition template.
pub const PLACEHOLDER: &'static str = "SYMBOL";

/// The part of a template before its placeholder: the prefix whose
/// sub-directories are the partitions.
pub fn listing_root(pattern: &str) -> (r: String)
    ensures
        r@ == before_first(pattern@, PLACEHOLDER@),
{
    text_before(pattern, PLACEHOLDER)
}

/// The prefix of one partition: the template with its placeholder replaced
/// by the partition key.
pub fn partition_prefix(pattern: &str, key: &str) -> (r: String)
    ensures
        r@ == replace_all(pattern@, PLACEHOLDER@, key@),
{
    proof {
        reveal_strlit("SYMBOL");
    }
    replace_text(pattern, PLACEHOLDER, key)
}

/// A listed directory is a partition to harvest when its name matches the
/// key glob.
pub open spec fn selected(e: (Seq<char>, bool), glob: Seq<char>) -> bool {
    e.1 && regex_compiles(glob_regex(glob)) && glob_matches(e.0, glob)
}

/// The names of the selected directories, in listing order.
pub open spec fn selected_names(entries: Seq<(Seq<char>, bool)>, glob: Seq<char>) -> Seq<Seq<char>>
    decreases entries.len(),
{
    if entries.len() == 0 {
        Seq::empty()
    } else {
        let rest = selected_names(entries.drop_last(), glob);
        if selected(entries.last(), glob) {
            rest.push(entries.last().0)
        } else {
            rest
        }
    }
}

pub open spec fn strings_view(v: Seq<String>) -> Seq<Seq<char>> {
    v.map_values(|s: String| s@)
}

/// The partition keys among the entries of the root listing: the
/// directories whose names match the glob.
pub fn select_partitions(entries: &Vec<(String, bool)>, glob: &str) -> (r: Vec<String>)
    ensures
        strings_view(r@) == selected_names(crate::listing::entries_view(entries@), glob@),
{
    let ghost ev = crate::listing::entries_view(entries@);
    let mut out: Vec<String> = Vec::new();
    let mut i: usize = 0;
    while i < entries.len()
        invariant
            i <= entries@.len(),
            ev == crate::listing::entries_view(entries@),
            strings_view(out@) == selected_names(ev.take(i as int), glob@),
        decreases entries.len() - i,
    {
        proof {
            assert(ev.take(i + 1).drop_last() == ev.take(i as int));
            assert(ev.take(i + 1).last() == (entries@[i as int].0@, entries@[i as int].1));
        }
        if entries[i].1 && wildcard_match(entries[i].0.as_str(), glob) {
            let ghost before = out@;
            out.push(entries[i].0.clone());
            assert(strings_view(out@) =~= strings_view(before).push(entries@[i as int].0@));
        }
        i = i + 1;
    }
    assert(ev.take(ev.len() as int) == ev);
    out
}

/// The URLs of the archives among a partition's listed entries, in order.
pub open spec fn archive_urls_of(path: Seq<char>, entries: Seq<(Seq<char>, bool)>) -> Seq<Seq<char>>
    decreases entries.len(),
{
    if entries.len() == 0 {
        Seq::empty()
    } else {
        let rest = archive_urls_of(path, entries.drop_last());
        if !entries.last().1 {
            rest.push(archive_url(path, entries.last().0))
        } else {
            rest
        }
    }
}

/// The URLs of the archives among a partition's listed entries.
pub fn archive_urls(path: &str, entries: &Vec<(String, bool)>) -> (r: Vec<String>)
    ensures
        strings_view(r@) == archive_urls_of(path@, crate::listing::entries_view(entries@)),
{
    let ghost ev = crate::listing::entries_view(entries@);
    let mut out: Vec<String> = Vec::new();
    let mut i: usize = 0;
    while i < entries.len()
        invariant
            i <= entries@.len(),
            ev == crate::listing::entries_view(entries@),
            strings_view(out@) == archive_urls_of(path@, ev.take(i as int)),
        decreases entries.len() - i,
    {
        proof {
            assert(ev.take(i + 1).drop_last() == ev.take(i as int));
            assert(ev.take(i + 1).last() == (entries@[i as int].0@, entries@[i as int].1));
        }
        if !entries[i].1 {
            let u = encoded_url(path, entries[i].0.as_str());
            let ghost before = out@;
            out.push(u);
            assert(strings_view(out@) =~= strings_view(before).push(u@));
        }
        i = i + 1;
    }
    assert(ev.take(ev.len() as int) == ev);
    out
}

pub open spec fn groups_view(g: Seq<(String, Vec<String>)>) -> Seq<(Seq<char>, Seq<Seq<char>>)> {
    g.map_values(|x: (String, Vec<String>)| (x.0@, strings_view(x.1@)))
}

/// No two groups share a partition key.
pub open spec fn keys_distinct(g: Seq<(Seq<char>, Seq<Seq<char>>)>) -> bool {
    forall|i: int, j: int| 0 <= i < g.len() && 0 <= j < g.len() && i != j ==> g[i].0 != g[j].0
}

/// The groups after adding `url` to the group of `key`, which is created
/// at the end where there is none.
pub open spec fn with_work(g: Seq<(Seq<char>, Seq<Seq<char>>)>, key: Seq<char>, url: Seq<char>) -> Seq<
    (Seq<char>, Seq<Seq<char>>),
> {
    if exists|i: int| 0 <= i < g.len() && #[trigger] g[i].0 == key {
        let i = choose|i: int| 0 <= i < g.len() && #[trigger] g[i].0 == key;
        g.update(i, (key, g[i].1.push(url)))
    } else {
        g.push((key, seq![url]))
    }
}

/// Work items grouped by partition key, one group per key, each group in
/// the order its items were added.
pub struct WorkQueue {
    groups: Vec<(String, Vec<String>)>,
}

impl WorkQueue {
    #[verifier::type_invariant]
    spec fn one_group_per_key(self) -> bool {
        keys_distinct(groups_view(self.groups@))
    }

    pub closed spec fn view(self) -> Seq<(Seq<char>, Seq<Seq<char>>)> {
        groups_view(self.groups@)
    }

    /// An empty queue.
    pub fn new() -> (r: WorkQueue)
        ensures
            r.view() == Seq::<(Seq<char>, Seq<Seq<char>>)>::empty(),
    {
        let r = WorkQueue { groups: Vec::new() };
        assert(r.view() =~= Seq::<(Seq<char>, Seq<Seq<char>>)>::empty());
        r
    }

    /// The queue with a work item added to the group of its partition key.
    pub fn with_item(self, key: &str, url: String) -> (r: WorkQueue)
        ensures
            r.view() == with_work(self.view(), key@, url@),
            keys_distinct(r.view()),
    {
        proof {
            use_type_invariant(&self);
        }
        let ghost g = groups_view(self.groups@);
        let mut groups = self.groups;
        let wanted = key.to_owned();
        let ghost uv = url;
        let ghost ui = url@;
        let mut i: usize = 0;
        while i < groups.len()
            invariant
                i <= groups@.len(),
                g == groups_view(groups@),
                keys_distinct(g),
                wanted@ == key@,
                ui == uv@,
                uv == url,
                g == self.view(),
                forall|j: int| 0 <= j < i ==> g[j].0 != key@,
            decreases groups.len() - i,
        {
            if groups[i].0.eq(&wanted) {
                proof {
                    assert(g[i as int].0 == key@);
                    assert forall|j: int| 0 <= j < g.len() && #[trigger] g[j].0 == key@ implies j == i by {
                    }
                }
                let ghost prev = groups@;
                let (_, mut group) = groups.remove(i);
                let ghost before = group@;
                assert(before == prev[i as int].1@);
                group.push(url);
                let ghost after = group@;
                groups.insert(i, (wanted, group));
                proof {
                    assert(after == before.push(uv));
                    assert(strings_view(after) =~= strings_view(before).push(ui)) by {
                        assert forall|q: int| 0 <= q < after.len() implies #[trigger] strings_view(after)[q]
                            == strings_view(before).push(ui)[q] by {
                            if q < before.len() {
                                assert(after[q] == before[q]);
                            }
                        }
                    }
                    assert(exists|j: int| 0 <= j < g.len() && #[trigger] g[j].0 == key@);
                    let j = choose|j: int| 0 <= j < g.len() && #[trigger] g[j].0 == key@;
                    assert(j == i);
                    assert(with_work(g, key@, ui) == g.update(i as int, (key@, g[i as int].1.push(ui))));
                    assert(groups_view(groups@) =~= g.update(i as int, (key@, g[i as int].1.push(ui)))) by {
                        assert forall|q: int| 0 <= q < g.len() implies #[trigger] groups_view(groups@)[q]
                            == g.update(i as int, (key@, g[i as int].1.push(ui)))[q] by {
                            if q < i {
                                assert(groups@[q] == prev[q]);
                            } else if q > i {
                                assert(groups@[q] == prev[q]);
                            }
                        }
                    }
                    let h = groups_view(groups@);
                    assert forall|a: int, b: int| 0 <= a < h.len() && 0 <= b < h.len() && a != b implies h[a].0 != h[b].0 by {
                        assert(h[a].0 == g[a].0 && h[b].0 == g[b].0);
                    }
                }
                return WorkQueue { groups };
            }
            i = i + 1;
        }
        let mut group: Vec<String> = Vec::new();
        group.push(url);
        groups.push((wanted, group));
        proof {
            assert(strings_view(group@) =~= seq![ui]);
            assert(groups_view(groups@) =~= g.push((key@, seq![ui])));
            let h = groups_view(groups@);
            assert forall|a: int, b: int| 0 <= a < h.len() && 0 <= b < h.len() && a != b implies h[a].0 != h[b].0 by {
                if a < g.len() && b < g.len() {
                    assert(h[a].0 == g[a].0 && h[b].0 == g[b].0);
                } else if a < g.len() {
                    assert(h[a].0 == g[a].0);
                } else if b < g.len() {
                    assert(h[b].0 == g[b].0);
                }
            }
        }
        WorkQueue { groups }
    }

    /// The groups, one per partition key.
    pub fn groups(&self) -> (r: &Vec<(String, Vec<String>)>)
        ensures
            groups_view(r@) == self.view(),
            keys_distinct(self.view()),
    {
        proof {
            use_type_invariant(self);
        }
        &self.groups
    }
}

/// An item is finished when the ledger holds its URL or its file name.
pub open spec fn finished(l: Set<Seq<char>>, url: Seq<char>) -> bool {
    l.contains(url) || l.contains(zip_name(url))
}

/// The items of a group that are not finished, in order.
pub open spec fn pending_of(l: Set<Seq<char>>, urls: Seq<Seq<char>>) -> Seq<Seq<char>>
    decreases urls.len(),
{
    if urls.len() == 0 {
        urls
    } else {
        let rest = pending_of(l, urls.drop_last());
        if finished(l, urls.last()) {
            rest
        } else {
            rest.push(urls.last())
        }
    }
}

/// The items of a group that are finished, in order.
pub open spec fn skipped_of(l: Set<Seq<char>>, urls: Seq<Seq<char>>) -> Seq<Seq<char>>
    decreases urls.len(),
{
    if urls.len() == 0 {
        urls
    } else {
        let rest = skipped_of(l, urls.drop_last());
        if finished(l, urls.last()) {
            rest.push(urls.last())
        } else {
            rest
        }
    }
}

/// The pending work of each group, leaving out groups with none.
pub open spec fn pending_groups(l: Set<Seq<char>>, g: Seq<(Seq<char>, Seq<Seq<char>>)>) -> Seq<
    (Seq<char>, Seq<Seq<char>>),
>
    decreases g.len(),
{
    if g.len() == 0 {
        g
    } else {
        let rest = pending_groups(l, g.drop_last());
        let p = pending_of(l, g.last().1);
        if p.len() > 0 {
            rest.push((g.last().0, p))
        } else {
            rest
        }
    }
}

/// The finished items of all groups, in order.
pub open spec fn skipped_all(l: Set<Seq<char>>, g: Seq<(Seq<char>, Seq<Seq<char>>)>) -> Seq<Seq<char>>
    decreases g.len(),
{
    if g.len() == 0 {
        Seq::empty()
    } else {
        skipped_all(l, g.drop_last()) + skipped_of(l, g.last().1)
    }
}

/// The items of one group that the ledger does not hold, and those it does.
fn split_group(ledger: &Ledger, urls: &Vec<String>, skipped: &mut Vec<String>) -> (r: Vec<String>)
    ensures
        strings_view(r@) == pending_of(ledger.view(), strings_view(urls@)),
        strings_view(final(skipped)@) == strings_view(old(skipped)@) + skipped_of(
            ledger.view(),
            strings_view(urls@),
        ),
{
    let ghost u = strings_view(urls@);
    let ghost start = strings_view(skipped@);
    let mut out: Vec<String> = Vec::new();
    let mut i: usize = 0;
    while i < urls.len()
        invariant
            i <= urls@.len(),
            u == strings_view(urls@),
            strings_view(out@) == pending_of(ledger.view(), u.take(i as int)),
            strings_view(skipped@) == start + skipped_of(ledger.view(), u.take(i as int)),
        decreases urls.len() - i,
    {
        proof {
            assert(u.take(i + 1).drop_last() == u.take(i as int));
            assert(u.take(i + 1).last() == urls@[i as int]@);
        }
        let done = ledger.is_processed(urls[i].as_str());
        if done {
            let ghost before = skipped@;
            skipped.push(urls[i].clone());
            assert(strings_view(skipped@) =~= strings_view(before).push(urls@[i as int]@));
        } else {
            let ghost before = out@;
            out.push(urls[i].clone());
            assert(strings_view(out@) =~= strings_view(before).push(urls@[i as int]@));
        }
        i = i + 1;
    }
    assert(u.take(u.len() as int) == u);
    out
}

/// One of the first `n` groups has the key `k`.
pub open spec fn key_among(g: Seq<(Seq<char>, Seq<Seq<char>>)>, n: int, k: Seq<char>) -> bool {
    exists|j: int| 0 <= j < n && #[trigger] g[j].0 == k
}

/// Splits the work into what the ledger does not hold yet, grouped as
/// before, and what it does, which is skipped.
pub fn plan_work(queue: &WorkQueue, ledger: &Ledger) -> (r: (WorkQueue, Vec<String>))
    ensures
        r.0.view() == pending_groups(ledger.view(), queue.view()),
        strings_view(r.1@) == skipped_all(ledger.view(), queue.view()),
{
    let groups = queue.groups();
    let ghost g = queue.view();
    let mut pending: Vec<(String, Vec<String>)> = Vec::new();
    let mut skipped: Vec<String> = Vec::new();
    let mut i: usize = 0;
    while i < groups.len()
        invariant
            i <= groups@.len(),
            g == groups_view(groups@),
            keys_distinct(g),
            groups_view(pending@) == pending_groups(ledger.view(), g.take(i as int)),
            strings_view(skipped@) == skipped_all(ledger.view(), g.take(i as int)),
            forall|p: int| 0 <= p < pending@.len() ==> key_among(g, i as int, #[trigger] pending@[p].0@),
            keys_distinct(groups_view(pending@)),
        decreases groups.len() - i,
    {
        proof {
            assert(g.take(i + 1).drop_last() == g.take(i as int));
            assert(g.take(i + 1).last() == g[i as int]);
        }
        let p = split_group(ledger, &groups[i].1, &mut skipped);
        if p.len() > 0 {
            let ghost before = pending@;
            let ghost pv = strings_view(p@);
            pending.push((groups[i].0.clone(), p));
            proof {
                assert(groups_view(pending@) =~= groups_view(before).push((g[i as int].0, pv)));
                assert forall|q: int| 0 <= q < pending@.len() implies key_among(g, i + 1, #[trigger] pending@[q].0@) by {
                    if q < before.len() {
                        assert(pending@[q] == before[q]);
                        assert(key_among(g, i as int, before[q].0@));
                        let j = choose|j: int| 0 <= j < i && #[trigger] g[j].0 == before[q].0@;
                        assert(g[j].0 == pending@[q].0@);
                    } else {
                        assert(g[i as int].0 == pending@[q].0@);
                    }
                }
                let pg = groups_view(pending@);
                assert forall|a: int, b: int| 0 <= a < pg.len() && 0 <= b < pg.len() && a != b implies pg[a].0 != pg[b].0 by {
                    if a < before.len() && b < before.len() {
                        assert(pending@[a] == before[a] && pending@[b] == before[b]);
                        assert(groups_view(before)[a].0 != groups_view(before)[b].0);
                    } else if a < before.len() {
                        assert(pending@[a] == before[a]);
                        assert(key_among(g, i as int, before[a].0@));
                        let j = choose|j: int| 0 <= j < i && #[trigger] g[j].0 == before[a].0@;
                        assert(g[j].0 != g[i as int].0);
                    } else if b < before.len() {
                        assert(pending@[b] == before[b]);
                        assert(key_among(g, i as int, before[b].0@));
                        let j = choose|j: int| 0 <= j < i && #[trigger] g[j].0 == before[b].0@;
                        assert(g[j].0 != g[i as int].0);
                    }
                }
            }
        }
        i = i + 1;
    }
    assert(g.take(g.len() as int) == g);
    (WorkQueue { groups: pending }, skipped)
}

proof fn lemma_pending_excludes(l: Set<Seq<char>>, urls: Seq<Seq<char>>, url: Seq<char>)
    requires
        finished(l, url),
    ensures
        !pending_of(l, urls).contains(url),
    decreases urls.len(),
{
    if urls.len() > 0 {
        lemma_pending_excludes(l, urls.drop_last(), url);
        let rest = pending_of(l, urls.drop_last());
        if !finished(l, urls.last()) {
            crate::table::lemma_push_contains(rest, urls.last());
        }
    }
}

/// An item whose URL or file name the ledger holds is in no pending group.
pub proof fn lemma_finished_items_are_skipped(
    l: Set<Seq<char>>,
    g: Seq<(Seq<char>, Seq<Seq<char>>)>,
    url: Seq<char>,
)
    requires
        l.contains(url) || l.contains(zip_name(url)),
    ensures
        forall|k: int| 0 <= k < pending_groups(l, g).len() ==> !(#[trigger] pending_groups(l, g)[k]).1.contains(url),
    decreases g.len(),
{
    if g.len() > 0 {
        lemma_finished_items_are_skipped(l, g.drop_last(), url);
        lemma_pending_excludes(l, g.last().1, url);
        let rest = pending_groups(l, g.drop_last());
        let p = pending_of(l, g.last().1);
        if p.len() > 0 {
            assert forall|k: int| 0 <= k < rest.push((g.last().0, p)).len() implies !(#[trigger] rest.push((g.last().0, p))[k]).1.contains(url) by {
                if k < rest.len() {
                    assert(rest.push((g.last().0, p))[k] == rest[k]);
                }
            }
        }
    }
}

} // verus!
