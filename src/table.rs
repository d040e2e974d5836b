//! Record tables and their normal form: duplicate rows removed (the first
//! occurrence wins) and rows ordered by their first cell, ties kept in order.
use vstd::prelude::*;

use crate::text::chars_of;

verus! {

/// One value of a record.
#[derive(Debug)]
pub enum Cell {
    Int(i64),
    Text(String),
}

/// What a cell holds, as a mathematical value.
pub enum CellView {
    Int(int),
    Text(Seq<char>),
}

impl View for Cell {
    type V = CellView;

    open spec fn view(&self) -> CellView {
        match self {
            Cell::Int(x) => CellView::Int(*x as int),
            Cell::Text(s) => CellView::Text(s@),
        }
    }
}

pub open spec fn row_view(r: Vec<Cell>) -> Seq<CellView> {
    r@.map_values(|c: Cell| c@)
}

pub open spec fn rows_view(rs: Seq<Vec<Cell>>) -> Seq<Seq<CellView>> {
    rs.map_values(|r: Vec<Cell>| row_view(r))
}

/// Strict lexicographic order on texts, by code point.
pub open spec fn text_lt(x: Seq<char>, y: Seq<char>) -> bool
    decreases x.len(),
{
    if x.len() == 0 {
        y.len() > 0
    } else if y.len() == 0 {
        false
    } else if x[0] != y[0] {
        x[0] < y[0]
    } else {
        text_lt(x.drop_first(), y.drop_first())
    }
}

/// Strict order on cells: integers by value, before texts, which go
/// lexicographically.
pub open spec fn cell_lt(a: CellView, b: CellView) -> bool {
    match (a, b) {
        (CellView::Int(x), CellView::Int(y)) => x < y,
        (CellView::Int(_), CellView::Text(_)) => true,
        (CellView::Text(_), CellView::Int(_)) => false,
        (CellView::Text(x), CellView::Text(y)) => text_lt(x, y),
    }
}

/// The first cell of a row, which orders the table.
pub open spec fn row_key(r: Seq<CellView>) -> CellView {
    r[0]
}

/// Row `a` may stand before row `b`.
pub open spec fn row_le(a: Seq<CellView>, b: Seq<CellView>) -> bool {
    !cell_lt(row_key(b), row_key(a))
}

/// Rows ordered by their first cell.
pub open spec fn rows_sorted(s: Seq<Seq<CellView>>) -> bool {
    forall|i: int, j: int| 0 <= i < j < s.len() ==> row_le(#[trigger] s[i], #[trigger] s[j])
}

/// The rows of `s`, each at its first occurrence only, in order.
pub open spec fn dedup_rows(s: Seq<Seq<CellView>>) -> Seq<Seq<CellView>>
    decreases s.len(),
{
    if s.len() == 0 {
        s
    } else {
        let d = dedup_rows(s.drop_last());
        if d.contains(s.last()) {
            d
        } else {
            d.push(s.last())
        }
    }
}

/// Inserts `r` into sorted rows after every row that may stand before it.
pub open spec fn insert_row(s: Seq<Seq<CellView>>, r: Seq<CellView>) -> Seq<Seq<CellView>>
    decreases s.len(),
{
    if s.len() == 0 {
        seq![r]
    } else if row_le(s.last(), r) {
        s.push(r)
    } else {
        insert_row(s.drop_last(), r).push(s.last())
    }
}

/// The stable sort of rows by their first cell.
pub open spec fn sort_rows(s: Seq<Seq<CellView>>) -> Seq<Seq<CellView>>
    decreases s.len(),
{
    if s.len() == 0 {
        s
    } else {
        insert_row(sort_rows(s.drop_last()), s.last())
    }
}

/// The normal form of a sequence of rows.
pub open spec fn normal_rows(s: Seq<Seq<CellView>>) -> Seq<Seq<CellView>> {
    sort_rows(dedup_rows(s))
}

pub proof fn lemma_text_lt_irreflexive(x: Seq<char>)
    ensures
        !text_lt(x, x),
    decreases x.len(),
{
    if x.len() > 0 {
        lemma_text_lt_irreflexive(x.drop_first());
    }
}

pub proof fn lemma_text_lt_transitive(x: Seq<char>, y: Seq<char>, z: Seq<char>)
    requires
        text_lt(x, y),
        text_lt(y, z),
    ensures
        text_lt(x, z),
    decreases x.len(),
{
    if x.len() > 0 && y.len() > 0 && z.len() > 0 && x[0] == y[0] && y[0] == z[0] {
        lemma_text_lt_transitive(x.drop_first(), y.drop_first(), z.drop_first());
    }
}

pub proof fn lemma_text_lt_total(x: Seq<char>, y: Seq<char>)
    ensures
        x == y || text_lt(x, y) || text_lt(y, x),
    decreases x.len(),
{
    if x.len() > 0 && y.len() > 0 {
        if x[0] == y[0] {
            lemma_text_lt_total(x.drop_first(), y.drop_first());
            if x.drop_first() == y.drop_first() {
                assert(x == seq![x[0]] + x.drop_first());
                assert(y == seq![y[0]] + y.drop_first());
            }
        }
    } else if x.len() == 0 && y.len() == 0 {
        assert(x == y);
    }
}

pub proof fn lemma_cell_lt_irreflexive(a: CellView)
    ensures
        !cell_lt(a, a),
{
    if let CellView::Text(x) = a {
        lemma_text_lt_irreflexive(x);
    }
}

pub proof fn lemma_cell_lt_transitive(a: CellView, b: CellView, c: CellView)
    requires
        cell_lt(a, b),
        cell_lt(b, c),
    ensures
        cell_lt(a, c),
{
    if let (CellView::Text(x), CellView::Text(y), CellView::Text(z)) = (a, b, c) {
        lemma_text_lt_transitive(x, y, z);
    }
}

pub proof fn lemma_cell_lt_total(a: CellView, b: CellView)
    ensures
        a == b || cell_lt(a, b) || cell_lt(b, a),
{
    if let (CellView::Text(x), CellView::Text(y)) = (a, b) {
        lemma_text_lt_total(x, y);
    }
}

/// `row_le` is transitive.
pub proof fn lemma_row_le_transitive(a: Seq<CellView>, b: Seq<CellView>, c: Seq<CellView>)
    requires
        row_le(a, b),
        row_le(b, c),
    ensures
        row_le(a, c),
{
    lemma_cell_lt_total(row_key(a), row_key(b));
    lemma_cell_lt_total(row_key(b), row_key(c));
    if cell_lt(row_key(c), row_key(a)) {
        if row_key(a) == row_key(b) {
        } else if row_key(b) == row_key(c) {
        } else {
            lemma_cell_lt_transitive(row_key(a), row_key(b), row_key(c));
            lemma_cell_lt_transitive(row_key(c), row_key(a), row_key(c));
            lemma_cell_lt_irreflexive(row_key(c));
        }
    }
}

/// What a sequence holds after a push.
pub proof fn lemma_push_contains<A>(s: Seq<A>, a: A)
    ensures
        forall|x: A| #[trigger] s.push(a).contains(x) <==> (s.contains(x) || x == a),
{
    assert forall|x: A| #[trigger] s.push(a).contains(x) <==> (s.contains(x) || x == a) by {
        if s.push(a).contains(x) && x != a {
            let i = choose|i: int| 0 <= i < s.len() + 1 && s.push(a)[i] == x;
            assert(s[i] == x);
        }
        if s.contains(x) {
            let i = choose|i: int| 0 <= i < s.len() && s[i] == x;
            assert(s.push(a)[i] == x);
        }
        if x == a {
            assert(s.push(a)[s.len() as int] == x);
        }
    }
}

/// What a non-empty sequence holds, split at its last element.
pub proof fn lemma_last_contains<A>(s: Seq<A>)
    requires
        s.len() > 0,
    ensures
        forall|x: A| #[trigger] s.contains(x) <==> (s.drop_last().contains(x) || x == s.last()),
{
    lemma_push_contains(s.drop_last(), s.last());
    assert(s.drop_last().push(s.last()) == s);
}

pub proof fn lemma_insert_row_contains(s: Seq<Seq<CellView>>, r: Seq<CellView>)
    ensures
        insert_row(s, r).len() == s.len() + 1,
        forall|x: Seq<CellView>| #[trigger] insert_row(s, r).contains(x) <==> (s.contains(x) || x == r),
    decreases s.len(),
{
    if s.len() > 0 && !row_le(s.last(), r) {
        lemma_insert_row_contains(s.drop_last(), r);
        lemma_push_contains(insert_row(s.drop_last(), r), s.last());
        lemma_last_contains(s);
    } else if s.len() > 0 {
        lemma_push_contains(s, r);
    } else {
        lemma_push_contains(s, r);
        assert(seq![r] == s.push(r));
    }
}

pub proof fn lemma_insert_row_sorted(s: Seq<Seq<CellView>>, r: Seq<CellView>)
    requires
        rows_sorted(s),
    ensures
        rows_sorted(insert_row(s, r)),
    decreases s.len(),
{
    if s.len() > 0 {
        if row_le(s.last(), r) {
            assert forall|i: int, j: int| 0 <= i < j < s.len() + 1 implies row_le(
                #[trigger] s.push(r)[i],
                #[trigger] s.push(r)[j],
            ) by {
                if j == s.len() as int {
                    if i < s.len() - 1 {
                        lemma_row_le_transitive(s[i], s.last(), r);
                    }
                }
            }
        } else {
            let d = s.drop_last();
            lemma_insert_row_sorted(d, r);
            lemma_insert_row_contains(d, r);
            let t = insert_row(d, r);
            assert forall|i: int, j: int| 0 <= i < j < t.len() + 1 implies row_le(
                #[trigger] t.push(s.last())[i],
                #[trigger] t.push(s.last())[j],
            ) by {
                if j == t.len() as int {
                    assert(t.contains(t[i]));
                    if t[i] == r {
                        lemma_cell_lt_total(row_key(r), row_key(s.last()));
                        if cell_lt(row_key(s.last()), row_key(r)) {
                            lemma_cell_lt_transitive(row_key(r), row_key(s.last()), row_key(r));
                            lemma_cell_lt_irreflexive(row_key(r));
                        }
                    } else {
                        let k = choose|k: int| 0 <= k < d.len() && d[k] == t[i];
                        assert(s[k] == t[i]);
                    }
                }
            }
        }
    }
}

/// Sorting keeps exactly the rows it was given, and orders them.
pub proof fn lemma_sort_rows(s: Seq<Seq<CellView>>)
    ensures
        sort_rows(s).len() == s.len(),
        rows_sorted(sort_rows(s)),
        forall|x: Seq<CellView>| #[trigger] sort_rows(s).contains(x) <==> s.contains(x),
    decreases s.len(),
{
    if s.len() > 0 {
        let d = s.drop_last();
        lemma_sort_rows(d);
        lemma_insert_row_sorted(sort_rows(d), s.last());
        lemma_insert_row_contains(sort_rows(d), s.last());
        lemma_last_contains(s);
    }
}

/// Placing `r` at the index that a backward scan finds is `insert_row`.
pub proof fn lemma_insert_row_at(s: Seq<Seq<CellView>>, r: Seq<CellView>, j: int)
    requires
        0 <= j <= s.len(),
        j > 0 ==> row_le(s[j - 1], r),
        forall|m: int| j <= m < s.len() ==> !row_le(#[trigger] s[m], r),
    ensures
        insert_row(s, r) == s.insert(j, r),
    decreases s.len(),
{
    if s.len() == 0 {
        assert(s.insert(j, r) =~= seq![r]);
    } else if j == s.len() {
        assert(s.insert(j, r) =~= s.push(r));
    } else {
        let d = s.drop_last();
        assert(!row_le(s[s.len() - 1], r));
        assert forall|m: int| j <= m < d.len() implies !row_le(#[trigger] d[m], r) by {
            assert(d[m] == s[m]);
        }
        lemma_insert_row_at(d, r, j);
        assert(d.insert(j, r).push(s.last()) =~= s.insert(j, r));
    }
}

proof fn lemma_push_no_duplicates<A>(s: Seq<A>, a: A)
    requires
        s.no_duplicates(),
        !s.contains(a),
    ensures
        s.push(a).no_duplicates(),
{
    assert forall|i: int, j: int|
        0 <= i < s.len() + 1 && 0 <= j < s.len() + 1 && i != j implies s.push(a)[i] != s.push(
        a,
    )[j] by {
        if i == s.len() as int {
            assert(s[j] == s.push(a)[j]);
        } else if j == s.len() as int {
            assert(s[i] == s.push(a)[i]);
        }
    }
}

proof fn lemma_insert_row_no_duplicates(s: Seq<Seq<CellView>>, r: Seq<CellView>)
    requires
        s.no_duplicates(),
        !s.contains(r),
    ensures
        insert_row(s, r).no_duplicates(),
    decreases s.len(),
{
    if s.len() == 0 {
    } else if row_le(s.last(), r) {
        lemma_push_no_duplicates(s, r);
    } else {
        let d = s.drop_last();
        lemma_last_contains(s);
        lemma_insert_row_no_duplicates(d, r);
        lemma_insert_row_contains(d, r);
        assert(!d.contains(s.last())) by {
            if d.contains(s.last()) {
                let i = choose|i: int| 0 <= i < d.len() && d[i] == s.last();
                assert(s[i] == s[s.len() - 1]);
            }
        }
        lemma_push_no_duplicates(insert_row(d, r), s.last());
    }
}

/// Removing duplicates keeps exactly the rows it was given, once each.
pub proof fn lemma_dedup_rows(s: Seq<Seq<CellView>>)
    ensures
        dedup_rows(s).no_duplicates(),
        forall|x: Seq<CellView>| #[trigger] dedup_rows(s).contains(x) <==> s.contains(x),
    decreases s.len(),
{
    if s.len() > 0 {
        lemma_dedup_rows(s.drop_last());
        lemma_last_contains(s);
        let d = dedup_rows(s.drop_last());
        if !d.contains(s.last()) {
            lemma_push_no_duplicates(d, s.last());
            lemma_push_contains(d, s.last());
        }
    }
}

proof fn lemma_sort_rows_no_duplicates(s: Seq<Seq<CellView>>)
    requires
        s.no_duplicates(),
    ensures
        sort_rows(s).no_duplicates(),
    decreases s.len(),
{
    if s.len() > 0 {
        let d = s.drop_last();
        lemma_sort_rows_no_duplicates(d);
        lemma_sort_rows(d);
        assert(!d.contains(s.last())) by {
            if d.contains(s.last()) {
                let i = choose|i: int| 0 <= i < d.len() && d[i] == s.last();
                assert(s[i] == s[s.len() - 1]);
            }
        }
        lemma_insert_row_no_duplicates(sort_rows(d), s.last());
    }
}

proof fn lemma_dedup_of_distinct(s: Seq<Seq<CellView>>)
    requires
        s.no_duplicates(),
    ensures
        dedup_rows(s) == s,
    decreases s.len(),
{
    if s.len() > 0 {
        let d = s.drop_last();
        lemma_dedup_of_distinct(d);
        assert(!d.contains(s.last())) by {
            if d.contains(s.last()) {
                let i = choose|i: int| 0 <= i < d.len() && d[i] == s.last();
                assert(s[i] == s[s.len() - 1]);
            }
        }
        assert(d.push(s.last()) == s);
    }
}

proof fn lemma_dedup_absorbs(n: Seq<Seq<CellView>>, b: Seq<Seq<CellView>>)
    requires
        n.no_duplicates(),
        forall|i: int| 0 <= i < b.len() ==> n.contains(#[trigger] b[i]),
    ensures
        dedup_rows(n + b) == n,
    decreases b.len(),
{
    if b.len() == 0 {
        assert(n + b == n);
        lemma_dedup_of_distinct(n);
    } else {
        let c = b.drop_last();
        assert forall|i: int| 0 <= i < c.len() implies n.contains(#[trigger] c[i]) by {
            assert(c[i] == b[i]);
        }
        lemma_dedup_absorbs(n, c);
        assert((n + b).drop_last() == n + c);
        assert((n + b).last() == b[b.len() - 1]);
    }
}

proof fn lemma_sort_of_sorted(s: Seq<Seq<CellView>>)
    requires
        rows_sorted(s),
    ensures
        sort_rows(s) == s,
    decreases s.len(),
{
    if s.len() > 0 {
        let d = s.drop_last();
        assert(rows_sorted(d)) by {
            assert forall|i: int, j: int| 0 <= i < j < d.len() implies row_le(
                #[trigger] d[i],
                #[trigger] d[j],
            ) by {
                assert(d[i] == s[i] && d[j] == s[j]);
            }
        }
        lemma_sort_of_sorted(d);
        if d.len() > 0 {
            assert(row_le(s[d.len() - 1], s[s.len() - 1]));
        } else {
            assert(seq![s.last()] == s);
        }
        assert(d.push(s.last()) == s);
    }
}

/// Normal-form rows are ordered by their first cell, row to row.
pub proof fn lemma_normal_rows_sorted(s: Seq<Seq<CellView>>)
    ensures
        rows_sorted(normal_rows(s)),
        forall|i: int|
            0 <= i < normal_rows(s).len() - 1 ==> row_le(
                #[trigger] normal_rows(s)[i],
                normal_rows(s)[i + 1],
            ),
{
    lemma_sort_rows(dedup_rows(s));
    assert forall|i: int| 0 <= i < normal_rows(s).len() - 1 implies row_le(
        #[trigger] normal_rows(s)[i],
        normal_rows(s)[i + 1],
    ) by {
        assert(rows_sorted(normal_rows(s)));
        let t = normal_rows(s);
        assert(row_le(t[i], t[i + 1]));
    }
}

/// Normal-form rows hold every row given, each once.
pub proof fn lemma_normal_rows_contents(s: Seq<Seq<CellView>>)
    ensures
        normal_rows(s).no_duplicates(),
        forall|x: Seq<CellView>| #[trigger] normal_rows(s).contains(x) <==> s.contains(x),
{
    lemma_dedup_rows(s);
    lemma_sort_rows(dedup_rows(s));
    lemma_sort_rows_no_duplicates(dedup_rows(s));
}

/// Merging a batch into the normal form of that same batch changes nothing:
/// merging one batch twice gives what merging it once gave.
pub proof fn lemma_merge_same_batch_again(b: Seq<Seq<CellView>>)
    ensures
        normal_rows(normal_rows(b) + b) == normal_rows(b),
{
    let n = normal_rows(b);
    lemma_normal_rows_contents(b);
    lemma_normal_rows_sorted(b);
    assert forall|i: int| 0 <= i < b.len() implies n.contains(#[trigger] b[i]) by {
        assert(b.contains(b[i]));
    }
    lemma_dedup_absorbs(n, b);
    lemma_sort_of_sorted(n);
}

/// Normalizing rows already in normal form gives them back.
pub proof fn lemma_normalize_normal(s: Seq<Seq<CellView>>)
    ensures
        normal_rows(normal_rows(s)) == normal_rows(s),
{
    let n = normal_rows(s);
    lemma_normal_rows_contents(s);
    lemma_normal_rows_sorted(s);
    lemma_dedup_of_distinct(n);
    lemma_sort_of_sorted(n);
}

/// Normalizing rows in normal form, stacked on themselves, gives them back.
pub proof fn lemma_normalize_doubled(s: Seq<Seq<CellView>>)
    ensures
        normal_rows(normal_rows(s) + normal_rows(s)) == normal_rows(s),
{
    let n = normal_rows(s);
    lemma_normal_rows_contents(s);
    lemma_normal_rows_sorted(s);
    assert forall|i: int| 0 <= i < n.len() implies n.contains(#[trigger] n[i]) by {}
    lemma_dedup_absorbs(n, n);
    lemma_sort_of_sorted(n);
}

/// A copy of a cell.
pub fn copy_cell(c: &Cell) -> (r: Cell)
    ensures
        r@ == c@,
{
    match c {
        Cell::Int(x) => Cell::Int(*x),
        Cell::Text(s) => Cell::Text(s.clone()),
    }
}

/// A copy of a row.
pub fn copy_row(r: &Vec<Cell>) -> (o: Vec<Cell>)
    ensures
        row_view(o) == row_view(*r),
{
    let mut o: Vec<Cell> = Vec::new();
    let mut i: usize = 0;
    while i < r.len()
        invariant
            i <= r@.len(),
            o@.len() == i,
            row_view(o) == row_view(*r).take(i as int),
        decreases r.len() - i,
    {
        let ghost prev = o@;
        let c = copy_cell(&r[i]);
        o.push(c);
        assert forall|k: int| 0 <= k < i + 1 implies #[trigger] row_view(o)[k] == row_view(
            *r,
        ).take(i + 1)[k] by {
            if k < i {
                assert(o@[k] == prev[k]);
                assert(row_view(o)[k] == o@[k]@);
                assert(row_view(*r).take(i as int)[k] == row_view(*r).take(i + 1)[k]);
            } else {
                assert(o@[k] == c);
            }
        }
        assert(row_view(o) =~= row_view(*r).take(i + 1));
        i = i + 1;
    }
    assert(row_view(*r).take(r@.len() as int) == row_view(*r));
    o
}

/// Whether two cells hold the same value.
pub fn cells_equal(a: &Cell, b: &Cell) -> (r: bool)
    ensures
        r == (a@ == b@),
{
    match (a, b) {
        (Cell::Int(x), Cell::Int(y)) => *x == *y,
        (Cell::Text(x), Cell::Text(y)) => x.eq(y),
        _ => false,
    }
}

/// Whether two rows hold the same values.
pub fn rows_equal(a: &Vec<Cell>, b: &Vec<Cell>) -> (r: bool)
    ensures
        r == (row_view(*a) == row_view(*b)),
{
    if a.len() != b.len() {
        assert(row_view(*a).len() != row_view(*b).len());
        return false;
    }
    let mut i: usize = 0;
    while i < a.len()
        invariant
            i <= a@.len() == b@.len(),
            forall|j: int| 0 <= j < i ==> row_view(*a)[j] == row_view(*b)[j],
        decreases a.len() - i,
    {
        if !cells_equal(&a[i], &b[i]) {
            assert(row_view(*a)[i as int] != row_view(*b)[i as int]);
            return false;
        }
        i = i + 1;
    }
    assert(row_view(*a) =~= row_view(*b));
    true
}

/// Whether text `x` comes strictly before text `y`.
pub fn text_less(x: &String, y: &String) -> (r: bool)
    ensures
        r == text_lt(x@, y@),
{
    let a = chars_of(x.as_str());
    let b = chars_of(y.as_str());
    let mut i: usize = 0;
    assert(a@.subrange(0, a@.len() as int) == a@);
    assert(b@.subrange(0, b@.len() as int) == b@);
    while i < a.len() && i < b.len()
        invariant
            i <= a@.len(),
            i <= b@.len(),
            a@ == x@,
            b@ == y@,
            text_lt(x@, y@) == text_lt(
                a@.subrange(i as int, a@.len() as int),
                b@.subrange(i as int, b@.len() as int),
            ),
        decreases a.len() - i,
    {
        let ghost sa = a@.subrange(i as int, a@.len() as int);
        let ghost sb = b@.subrange(i as int, b@.len() as int);
        assert(sa[0] == a@[i as int] && sb[0] == b@[i as int]);
        if a[i] != b[i] {
            return a[i] < b[i];
        }
        assert(sa.drop_first() == a@.subrange(i + 1, a@.len() as int));
        assert(sb.drop_first() == b@.subrange(i + 1, b@.len() as int));
        i = i + 1;
    }
    i == a.len() && i < b.len()
}

/// Whether cell `a` comes strictly before cell `b`.
pub fn cell_less(a: &Cell, b: &Cell) -> (r: bool)
    ensures
        r == cell_lt(a@, b@),
{
    match (a, b) {
        (Cell::Int(x), Cell::Int(y)) => *x < *y,
        (Cell::Int(_), Cell::Text(_)) => true,
        (Cell::Text(_), Cell::Int(_)) => false,
        (Cell::Text(x), Cell::Text(y)) => text_less(x, y),
    }
}

/// The normal form of a sequence of non-empty rows: duplicates removed, the
/// first occurrence kept, then ordered by the first cell, ties kept in order.
pub fn normal_form(rows: &Vec<Vec<Cell>>) -> (out: Vec<Vec<Cell>>)
    requires
        forall|i: int| 0 <= i < rows@.len() ==> (#[trigger] rows@[i])@.len() > 0,
    ensures
        rows_view(out@) == normal_rows(rows_view(rows@)),
        forall|i: int| 0 <= i < out@.len() ==> (#[trigger] out@[i])@.len() > 0,
{
    let ghost all = rows_view(rows@);
    let mut out: Vec<Vec<Cell>> = Vec::new();
    let mut i: usize = 0;
    while i < rows.len()
        invariant
            i <= rows@.len(),
            all == rows_view(rows@),
            forall|k: int| 0 <= k < rows@.len() ==> (#[trigger] rows@[k])@.len() > 0,
            forall|k: int| 0 <= k < out@.len() ==> (#[trigger] out@[k])@.len() > 0,
            rows_view(out@) == normal_rows(all.take(i as int)),
        decreases rows.len() - i,
    {
        let r = &rows[i];
        let ghost ov = rows_view(out@);
        let ghost rv = row_view(*r);
        let ghost d = dedup_rows(all.take(i as int));
        proof {
            assert(rv == all[i as int]);
            assert(all.take(i + 1).drop_last() == all.take(i as int));
            assert(all.take(i + 1).last() == rv);
            lemma_sort_rows(d);
            assert(row_key(rv) == r@[0]@);
        }
        let mut j: usize = out.len();
        while j > 0 && cell_less(&r[0], &out[j - 1][0])
            invariant
                j <= out@.len(),
                ov == rows_view(out@),
                r@.len() > 0,
                rv == row_view(*r),
                forall|k: int| 0 <= k < out@.len() ==> (#[trigger] out@[k])@.len() > 0,
                forall|m: int| j <= m < ov.len() ==> cell_lt(row_key(rv), row_key(#[trigger] ov[m])),
            decreases j,
        {
            assert(row_key(ov[j - 1]) == out@[j - 1]@[0]@);
            j = j - 1;
        }
        proof {
            if j > 0 {
                assert(row_key(ov[j - 1]) == out@[j - 1]@[0]@);
            }
        }
        let mut k: usize = j;
        let mut dup = false;
        while k > 0 && !dup && !cell_less(&out[k - 1][0], &r[0])
            invariant
                k <= j <= out@.len(),
                ov == rows_view(out@),
                r@.len() > 0,
                rv == row_view(*r),
                forall|q: int| 0 <= q < out@.len() ==> (#[trigger] out@[q])@.len() > 0,
                dup ==> ov.contains(rv),
                !dup ==> forall|m: int| k <= m < j ==> #[trigger] ov[m] != rv,
            decreases k,
        {
            assert(row_key(ov[k - 1]) == out@[k - 1]@[0]@);
            if rows_equal(&out[k - 1], r) {
                dup = true;
            }
            k = k - 1;
        }
        proof {
            if k > 0 && !dup {
                assert(row_key(ov[k - 1]) == out@[k - 1]@[0]@);
            }
        }
        proof {
            if dup {
                assert(d.contains(rv));
                assert(dedup_rows(all.take(i + 1)) == d);
            }
        }
        if !dup {
            proof {
                assert(!ov.contains(rv)) by {
                    if ov.contains(rv) {
                        let m = choose|m: int| 0 <= m < ov.len() && ov[m] == rv;
                        lemma_cell_lt_irreflexive(row_key(rv));
                        if m < k {
                            if m < k - 1 {
                                assert(row_le(ov[m], ov[k - 1]));
                            }
                        }
                    }
                }
                assert(forall|m: int| j <= m < ov.len() ==> !row_le(#[trigger] ov[m], rv));
                lemma_insert_row_at(ov, rv, j as int);
                assert(!d.contains(rv));
                assert(dedup_rows(all.take(i + 1)) == d.push(rv));
                assert(d.push(rv).drop_last() == d);
                assert(normal_rows(all.take(i + 1)) == insert_row(ov, rv));
            }
            let copy = copy_row(r);
            let ghost before = out@;
            out.insert(j, copy);
            proof {
                assert(rows_view(out@) =~= ov.insert(j as int, rv));
                assert(forall|q: int| 0 <= q < out@.len() ==> (#[trigger] out@[q])@.len() > 0) by {
                    assert forall|q: int| 0 <= q < out@.len() implies (#[trigger] out@[q])@.len() > 0 by {
                        if q == j as int {
                            assert(row_view(out@[q]) == rv);
                        } else if q < j {
                            assert(out@[q] == before[q]);
                        } else {
                            assert(out@[q] == before[q - 1]);
                        }
                    }
                }
            }
        }
        i = i + 1;
    }
    assert(all.take(rows@.len() as int) == all);
    out
}

/// Why a table could not be formed or merged.
#[derive(Debug)]
pub enum TableError {
    /// A table needs at least one column.
    NoColumns,
    /// The number of column kinds differs from the number of columns.
    KindCount,
    /// A row whose number of cells differs from the number of columns.
    RowWidth { row: usize },
    /// A cell whose value is not of its column's kind.
    CellKind { row: usize, column: usize },
    /// The batch's columns, or their kinds, differ from those of the stored
    /// dataset.
    SchemaMismatch,
}

/// What a column holds: 64-bit integers, or text.
#[derive(Debug, Clone, Copy, PartialEq, Eq, Structural)]
pub enum ColumnKind {
    Int,
    Text,
}

/// A cell's value is of the kind `k`.
pub open spec fn has_kind(c: CellView, k: ColumnKind) -> bool {
    match k {
        ColumnKind::Int => c is Int,
        ColumnKind::Text => c is Text,
    }
}

/// Every row has one cell per kind, each of its column's kind.
pub open spec fn rows_fit(rows: Seq<Seq<CellView>>, kinds: Seq<ColumnKind>) -> bool {
    forall|i: int| 0 <= i < rows.len() ==> row_fits(#[trigger] rows[i], kinds)
}

/// A row has one cell per kind, each of its column's kind.
pub open spec fn row_fits(row: Seq<CellView>, kinds: Seq<ColumnKind>) -> bool {
    &&& row.len() == kinds.len()
    &&& forall|k: int| 0 <= k < kinds.len() ==> has_kind(#[trigger] row[k], kinds[k])
}

pub open spec fn names_view(cs: Seq<String>) -> Seq<Seq<char>> {
    cs.map_values(|c: String| c@)
}

/// A table: named columns, each of one kind, and rows of cells, one per
/// column and of that column's kind.
#[derive(Debug)]
pub struct Table {
    columns: Vec<String>,
    kinds: Vec<ColumnKind>,
    rows: Vec<Vec<Cell>>,
}

/// Whether a cell's value is of the kind `k`.
fn cell_fits(c: &Cell, k: ColumnKind) -> (r: bool)
    ensures
        r == has_kind(c@, k),
{
    match (c, k) {
        (Cell::Int(_), ColumnKind::Int) => true,
        (Cell::Text(_), ColumnKind::Text) => true,
        _ => false,
    }
}

impl Table {
    #[verifier::type_invariant]
    spec fn well_formed(self) -> bool {
        &&& self.columns@.len() > 0
        &&& self.kinds@.len() == self.columns@.len()
        &&& rows_fit(rows_view(self.rows@), self.kinds@)
    }

    /// The column names.
    pub closed spec fn names(self) -> Seq<Seq<char>> {
        names_view(self.columns@)
    }

    /// The kinds of the columns.
    pub closed spec fn kinds(self) -> Seq<ColumnKind> {
        self.kinds@
    }

    /// The rows, as values.
    pub closed spec fn records(self) -> Seq<Seq<CellView>> {
        rows_view(self.rows@)
    }

    /// A table of the given columns, column kinds and rows; there must be a
    /// column, one kind per column, and in every row one cell per column,
    /// of that column's kind.
    pub fn new(columns: Vec<String>, kinds: Vec<ColumnKind>, rows: Vec<Vec<Cell>>) -> (r: Result<
        Table,
        TableError,
    >)
        ensures
            r is Ok <==> (columns@.len() > 0 && kinds@.len() == columns@.len() && rows_fit(
                rows_view(rows@),
                kinds@,
            )),
            r matches Ok(t) ==> t.names() == names_view(columns@) && t.kinds() == kinds@
                && t.records() == rows_view(rows@),
            (r matches Err(TableError::NoColumns)) <==> columns@.len() == 0,
            (r matches Err(TableError::KindCount)) <==> (columns@.len() > 0 && kinds@.len()
                != columns@.len()),
            r matches Err(TableError::RowWidth { row }) ==> row < rows@.len() && rows@[row as int]@.len()
                != columns@.len(),
            r matches Err(TableError::CellKind { row, column }) ==> row < rows@.len() && column
                < kinds@.len() && column < rows@[row as int]@.len() && !has_kind(
                rows@[row as int]@[column as int]@,
                kinds@[column as int],
            ),
            !(r matches Err(TableError::SchemaMismatch)),
    {
        if columns.len() == 0 {
            return Err(TableError::NoColumns);
        }
        if kinds.len() != columns.len() {
            return Err(TableError::KindCount);
        }
        let ghost rv = rows_view(rows@);
        let mut i: usize = 0;
        while i < rows.len()
            invariant
                i <= rows@.len(),
                columns@.len() > 0,
                kinds@.len() == columns@.len(),
                rv == rows_view(rows@),
                forall|q: int| 0 <= q < i ==> row_fits(#[trigger] rv[q], kinds@),
            decreases rows.len() - i,
        {
            assert(rv[i as int].len() == rows@[i as int]@.len());
            if rows[i].len() != columns.len() {
                assert(!row_fits(rv[i as int], kinds@));
                return Err(TableError::RowWidth { row: i });
            }
            let mut k: usize = 0;
            while k < kinds.len()
                invariant
                    i < rows@.len(),
                    columns@.len() > 0,
                    kinds@.len() == columns@.len(),
                    k <= kinds@.len(),
                    rows@[i as int]@.len() == kinds@.len(),
                    rv == rows_view(rows@),
                    forall|q: int| 0 <= q < k ==> has_kind(#[trigger] rv[i as int][q], kinds@[q]),
                decreases kinds.len() - k,
            {
                if !cell_fits(&rows[i][k], kinds[k]) {
                    assert(rv[i as int][k as int] == rows@[i as int]@[k as int]@);
                    assert(!row_fits(rv[i as int], kinds@));
                    return Err(TableError::CellKind { row: i, column: k });
                }
                assert(rv[i as int][k as int] == rows@[i as int]@[k as int]@);
                k = k + 1;
            }
            assert(row_fits(rv[i as int], kinds@));
            i = i + 1;
        }
        Ok(Table { columns, kinds, rows })
    }

    /// The column names.
    pub fn columns(&self) -> (r: &Vec<String>)
        ensures
            names_view(r@) == self.names(),
    {
        &self.columns
    }

    /// The kinds of the columns.
    pub fn column_kinds(&self) -> (r: &Vec<ColumnKind>)
        ensures
            r@ == self.kinds(),
    {
        &self.kinds
    }

    /// The rows.
    pub fn rows(&self) -> (r: &Vec<Vec<Cell>>)
        ensures
            rows_view(r@) == self.records(),
    {
        &self.rows
    }

    /// The column names, the column kinds and the rows, taken apart.
    pub fn into_parts(self) -> (r: (Vec<String>, Vec<ColumnKind>, Vec<Vec<Cell>>))
        ensures
            names_view(r.0@) == self.names(),
            r.1@ == self.kinds(),
            rows_view(r.2@) == self.records(),
    {
        (self.columns, self.kinds, self.rows)
    }
}

/// Whether two lists of names are the same.
pub fn same_names(a: &Vec<String>, b: &Vec<String>) -> (r: bool)
    ensures
        r == (names_view(a@) == names_view(b@)),
{
    if a.len() != b.len() {
        assert(names_view(a@).len() != names_view(b@).len());
        return false;
    }
    let mut i: usize = 0;
    while i < a.len()
        invariant
            i <= a@.len() == b@.len(),
            forall|j: int| 0 <= j < i ==> names_view(a@)[j] == names_view(b@)[j],
        decreases a.len() - i,
    {
        if !a[i].eq(&b[i]) {
            assert(names_view(a@)[i as int] != names_view(b@)[i as int]);
            return false;
        }
        i = i + 1;
    }
    assert(names_view(a@) =~= names_view(b@));
    true
}

/// Whether two lists of column kinds are the same.
pub fn same_kinds(a: &Vec<ColumnKind>, b: &Vec<ColumnKind>) -> (r: bool)
    ensures
        r == (a@ == b@),
{
    if a.len() != b.len() {
        return false;
    }
    let mut i: usize = 0;
    while i < a.len()
        invariant
            i <= a@.len() == b@.len(),
            forall|j: int| 0 <= j < i ==> a@[j] == b@[j],
        decreases a.len() - i,
    {
        if a[i] != b[i] {
            return false;
        }
        i = i + 1;
    }
    assert(a@ =~= b@);
    true
}

/// The table in normal form: its duplicate rows removed, the first
/// occurrence kept, and its rows ordered by their first column.
pub fn normalize_frame(t: Table) -> (r: Result<Table, TableError>)
    ensures
        r matches Ok(n) && n.names() == t.names() && n.kinds() == t.kinds() && n.records()
            == normal_rows(t.records()),
{
    proof {
        use_type_invariant(&t);
    }
    proof {
        assert forall|i: int| 0 <= i < t.rows@.len() implies (#[trigger] t.rows@[i])@.len() > 0 by {
            assert(row_fits(rows_view(t.rows@)[i], t.kinds@));
            assert(row_view(t.rows@[i]).len() == t.rows@[i]@.len());
        }
    }
    let rows = normal_form(&t.rows);
    proof {
        lemma_normal_rows_contents(t.records());
        assert forall|i: int| 0 <= i < rows_view(rows@).len() implies row_fits(
            #[trigger] rows_view(rows@)[i],
            t.kinds@,
        ) by {
            let x = rows_view(rows@)[i];
            assert(normal_rows(t.records()).contains(x));
            let k = choose|k: int| 0 <= k < t.records().len() && t.records()[k] == x;
            assert(row_fits(t.records()[k], t.kinds@));
        }
    }
    Ok(Table { columns: t.columns, kinds: t.kinds, rows })
}

/// Merges a batch into a partition's stored dataset, if there is one: the
/// stored rows come first, then the batch's, and the whole is normalized.
/// The batch must have the dataset's columns, of the same kinds.
pub fn merge_into(existing: Option<Table>, batch: Table) -> (r: Result<Table, TableError>)
    ensures
        existing is None ==> (r matches Ok(t) && t.names() == batch.names() && t.kinds()
            == batch.kinds() && t.records() == normal_rows(batch.records())),
        existing matches Some(e) ==> ((e.names() != batch.names() || e.kinds() != batch.kinds())
            ==> r matches Err(TableError::SchemaMismatch)),
        existing matches Some(e) ==> ((e.names() == batch.names() && e.kinds() == batch.kinds())
            ==> (r matches Ok(t) && t.names() == batch.names() && t.kinds() == batch.kinds()
            && t.records() == normal_rows(e.records() + batch.records()))),
{
    match existing {
        None => normalize_frame(batch),
        Some(e) => {
            proof {
                use_type_invariant(&e);
                use_type_invariant(&batch);
            }
            if !same_names(&e.columns, &batch.columns) || !same_kinds(&e.kinds, &batch.kinds) {
                return Err(TableError::SchemaMismatch);
            }
            let ghost first = e.records();
            let ghost second = batch.records();
            let Table { columns, kinds, rows } = e;
            let mut all = rows;
            let mut i: usize = 0;
            while i < batch.rows.len()
                invariant
                    i <= batch.rows@.len(),
                    kinds@ == batch.kinds@,
                    second == rows_view(batch.rows@),
                    rows_fit(second, kinds@),
                    rows_view(all@) == first + second.take(i as int),
                decreases batch.rows.len() - i,
            {
                let ghost prev = all@;
                let copy = copy_row(&batch.rows[i]);
                let ghost copied = copy;
                all.push(copy);
                proof {
                    assert(rows_view(all@) =~= rows_view(prev).push(second[i as int]));
                    assert(second.take(i + 1) == second.take(i as int).push(second[i as int]));
                }
                i = i + 1;
            }
            assert(second.take(second.len() as int) == second);
            proof {
                let m = rows_view(all@);
                assert forall|q: int| 0 <= q < m.len() implies row_fits(#[trigger] m[q], kinds@) by {
                    if q < first.len() {
                        assert(m[q] == first[q]);
                    } else {
                        assert(m[q] == second[q - first.len()]);
                    }
                }
            }
            let merged = Table { columns, kinds, rows: all };
            normalize_frame(merged)
        },
    }
}

} // verus!
