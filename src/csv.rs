//! Reading an archive's comma-separated records into a table: header
//! detection, splitting, integer cells, and the two tag columns.
use vstd::prelude::*;

use crate::number::{all_digits, float_text_at, is_digit, is_float_text};
use crate::table::{has_kind, names_view, row_fits, row_view, rows_view, Cell, CellView, ColumnKind, Table};
use crate::text::{chars_of, push_all, push_char, string_of};

verus! {

/// The pieces of `s` between the separators `sep`, as `str::split` gives
/// them: one more piece than there are separators.
pub open spec fn split_on(s: Seq<char>, sep: char) -> Seq<Seq<char>>
    decreases s.len(),
{
    if s.len() == 0 {
        seq![Seq::empty()]
    } else {
        let rest = split_on(s.drop_last(), sep);
        if s.last() == sep {
            rest.push(Seq::empty())
        } else {
            rest.update(rest.len() - 1, rest.last().push(s.last()))
        }
    }
}

/// A line without the carriage return that may end it.
pub open spec fn strip_cr(l: Seq<char>) -> Seq<char> {
    if l.len() > 0 && l.last() == '\r' {
        l.drop_last()
    } else {
        l
    }
}

/// The lines that hold something, in order.
pub open spec fn nonblank(ls: Seq<Seq<char>>) -> Seq<Seq<char>>
    decreases ls.len(),
{
    if ls.len() == 0 {
        ls
    } else {
        let rest = nonblank(ls.drop_last());
        let l = strip_cr(ls.last());
        if l.len() == 0 {
            rest
        } else {
            rest.push(l)
        }
    }
}

/// Where the reading of a record stands: at the start of a field, in an
/// unquoted field, in a quoted field, or just after a quote in one.
#[derive(Debug, Clone, Copy, PartialEq, Eq, Structural)]
pub enum FieldMode {
    Start,
    Plain,
    Quoted,
    QuoteSeen,
}

/// The fields read so far, the field being read, and the mode.
pub struct FieldScan {
    pub done: Seq<Seq<char>>,
    pub cur: Seq<char>,
    pub mode: FieldMode,
}

/// How one character changes the reading of a record. A field that starts
/// with `"` is quoted: commas in it are part of it, `""` in it stands for
/// one `"`, and a lone `"` closes the quotes.
pub open spec fn field_step(st: FieldScan, c: char) -> FieldScan {
    let emit = FieldScan { done: st.done.push(st.cur), cur: Seq::empty(), mode: FieldMode::Start };
    let keep = |m: FieldMode| FieldScan { done: st.done, cur: st.cur.push(c), mode: m };
    match st.mode {
        FieldMode::Start => if c == ',' {
            emit
        } else if c == '"' {
            FieldScan { done: st.done, cur: st.cur, mode: FieldMode::Quoted }
        } else {
            keep(FieldMode::Plain)
        },
        FieldMode::Plain => if c == ',' {
            emit
        } else {
            keep(FieldMode::Plain)
        },
        FieldMode::Quoted => if c == '"' {
            FieldScan { done: st.done, cur: st.cur, mode: FieldMode::QuoteSeen }
        } else {
            keep(FieldMode::Quoted)
        },
        FieldMode::QuoteSeen => if c == '"' {
            keep(FieldMode::Quoted)
        } else if c == ',' {
            emit
        } else {
            keep(FieldMode::Plain)
        },
    }
}

/// The reading of a record after the characters `l`.
pub open spec fn field_scan(l: Seq<char>) -> FieldScan
    decreases l.len(),
{
    if l.len() == 0 {
        FieldScan { done: Seq::empty(), cur: Seq::empty(), mode: FieldMode::Start }
    } else {
        field_step(field_scan(l.drop_last()), l.last())
    }
}

/// The fields of a record line: separated by commas outside quotes.
pub open spec fn fields_of(l: Seq<char>) -> Seq<Seq<char>> {
    field_scan(l).done.push(field_scan(l).cur)
}

/// Splits a record line into its fields, honouring quotes.
pub fn split_fields(cs: &Vec<char>) -> (r: Vec<Vec<char>>)
    ensures
        seqs_view(r@) == fields_of(cs@),
{
    let mut done: Vec<Vec<char>> = Vec::new();
    let mut cur: Vec<char> = Vec::new();
    let mut mode = FieldMode::Start;
    let mut i: usize = 0;
    while i < cs.len()
        invariant
            i <= cs@.len(),
            seqs_view(done@) == field_scan(cs@.take(i as int)).done,
            cur@ == field_scan(cs@.take(i as int)).cur,
            mode == field_scan(cs@.take(i as int)).mode,
        decreases cs.len() - i,
    {
        let c = cs[i];
        proof {
            assert(cs@.take(i + 1).drop_last() == cs@.take(i as int));
            assert(cs@.take(i + 1).last() == c);
        }
        let emit = (mode == FieldMode::Start || mode == FieldMode::Plain || mode == FieldMode::QuoteSeen)
            && c == ',';
        if emit {
            let ghost before = done@;
            let ghost finished = cur@;
            done.push(cur);
            cur = Vec::new();
            mode = FieldMode::Start;
            assert(seqs_view(done@) =~= seqs_view(before).push(finished));
        } else if (mode == FieldMode::Start || mode == FieldMode::Quoted) && c == '"' {
            mode = if mode == FieldMode::Start { FieldMode::Quoted } else { FieldMode::QuoteSeen };
        } else {
            cur.push(c);
            mode = if mode == FieldMode::Quoted || (mode == FieldMode::QuoteSeen && c == '"') {
                FieldMode::Quoted
            } else {
                FieldMode::Plain
            };
        }
        i = i + 1;
    }
    let ghost before = done@;
    let ghost last = cur@;
    done.push(cur);
    assert(seqs_view(done@) =~= seqs_view(before).push(last));
    assert(cs@.take(cs@.len() as int) == cs@);
    done
}

/// The records of a text: its non-blank lines, split into fields.
pub open spec fn csv_records(s: Seq<char>) -> Seq<Seq<Seq<char>>> {
    nonblank(split_on(s, '\n')).map_values(|l: Seq<char>| fields_of(l))
}

/// Whether `i` is where the first cell of the text ends.
pub open spec fn ends_first_cell(s: Seq<char>, k: int) -> bool {
    &&& 0 <= k <= s.len()
    &&& forall|j: int| 0 <= j < k ==> s[j] != ',' && s[j] != '\n'
    &&& k < s.len() ==> (s[k] == ',' || s[k] == '\n')
}

/// The first cell of the first line of a text.
pub open spec fn leading_cell(s: Seq<char>) -> Seq<char> {
    let k = choose|k: int| ends_first_cell(s, k);
    let c = s.subrange(0, k);
    if k < s.len() && s[k] == '\n' {
        strip_cr(c)
    } else {
        c
    }
}

/// A text has a header row when its first cell does not read as a number.
pub open spec fn header_present(s: Seq<char>) -> bool {
    !is_float_text(leading_cell(s))
}

/// Whether the first line's first cell fails to read as a number, in which
/// case the first line names the columns.
pub fn has_header(csv_content: &str) -> (r: bool)
    ensures
        r == header_present(csv_content@),
{
    let cs = chars_of(csv_content);
    let mut k: usize = 0;
    while k < cs.len() && cs[k] != ',' && cs[k] != '\n'
        invariant
            k <= cs@.len(),
            forall|j: int| 0 <= j < k ==> cs@[j] != ',' && cs@[j] != '\n',
        decreases cs.len() - k,
    {
        k = k + 1;
    }
    proof {
        assert(ends_first_cell(cs@, k as int));
        let c = choose|c: int| ends_first_cell(cs@, c);
        if c < k {
            assert(cs@[c] != ',' && cs@[c] != '\n');
        } else if c > k {
            assert(cs@[k as int] != ',' && cs@[k as int] != '\n');
        }
        assert(c == k);
    }
    let end = if k < cs.len() && cs[k] == '\n' && k > 0 && cs[k - 1] == '\r' {
        k - 1
    } else {
        k
    };
    proof {
        let c = cs@.subrange(0, k as int);
        if k > 0 {
            assert(c.last() == cs@[k - 1]);
        }
        if end < k {
            assert(c.drop_last() == cs@.subrange(0, end as int));
        }
    }
    !float_text_at(&cs, 0, end)
}

pub open spec fn seqs_view(v: Seq<Vec<char>>) -> Seq<Seq<char>> {
    v.map_values(|x: Vec<char>| x@)
}

/// Splits `cs` at every `sep`.
pub fn split_chars(cs: &Vec<char>, sep: char) -> (r: Vec<Vec<char>>)
    ensures
        seqs_view(r@) == split_on(cs@, sep),
{
    let mut done: Vec<Vec<char>> = Vec::new();
    let mut cur: Vec<char> = Vec::new();
    let mut i: usize = 0;
    while i < cs.len()
        invariant
            i <= cs@.len(),
            seqs_view(done@).push(cur@) == split_on(cs@.take(i as int), sep),
        decreases cs.len() - i,
    {
        let c = cs[i];
        proof {
            assert(cs@.take(i + 1).drop_last() == cs@.take(i as int));
            assert(cs@.take(i + 1).last() == c);
        }
        if c == sep {
            let ghost before = done@;
            done.push(cur);
            cur = Vec::new();
            proof {
                assert(seqs_view(done@) =~= seqs_view(before).push(before.push(done@.last()).last()@));
                assert(seqs_view(done@).push(cur@) =~= split_on(cs@.take(i + 1), sep));
            }
        } else {
            let ghost old_cur = cur@;
            cur.push(c);
            proof {
                let v = seqs_view(done@);
                let rest = split_on(cs@.take(i as int), sep);
                assert(rest == v.push(old_cur));
                assert(v.push(cur@) =~= rest.update(rest.len() - 1, rest.last().push(c)));
            }
        }
        i = i + 1;
    }
    let ghost before = done@;
    done.push(cur);
    proof {
        assert(seqs_view(done@) =~= seqs_view(before).push(cur@));
        assert(cs@.take(cs@.len() as int) == cs@);
    }
    done
}

/// The non-blank lines of a text, without their carriage returns.
pub fn text_lines(cs: &Vec<char>) -> (r: Vec<Vec<char>>)
    ensures
        seqs_view(r@) == nonblank(split_on(cs@, '\n')),
{
    let pieces = split_chars(cs, '\n');
    let ghost all = split_on(cs@, '\n');
    let mut out: Vec<Vec<char>> = Vec::new();
    let mut i: usize = 0;
    while i < pieces.len()
        invariant
            i <= pieces@.len(),
            seqs_view(pieces@) == all,
            seqs_view(out@) == nonblank(all.take(i as int)),
        decreases pieces.len() - i,
    {
        let p = &pieces[i];
        let n = if p.len() > 0 && p[p.len() - 1] == '\r' {
            p.len() - 1
        } else {
            p.len()
        };
        proof {
            assert(all.take(i + 1).drop_last() == all.take(i as int));
            assert(all.take(i + 1).last() == p@);
            if n < p@.len() {
                assert(p@.drop_last() == p@.subrange(0, n as int));
            } else {
                assert(p@ == p@.subrange(0, n as int));
            }
        }
        if n > 0 {
            let mut line: Vec<char> = Vec::new();
            let mut j: usize = 0;
            while j < n
                invariant
                    j <= n <= p@.len(),
                    line@ == p@.subrange(0, j as int),
                decreases n - j,
            {
                line.push(p[j]);
                j = j + 1;
            }
            let ghost before = out@;
            out.push(line);
            proof {
                assert(seqs_view(out@) =~= seqs_view(before).push(strip_cr(p@)));
            }
        }
        i = i + 1;
    }
    assert(all.take(all.len() as int) == all);
    out
}

/// The value of a run of decimal digits.
pub open spec fn digits_value(s: Seq<char>) -> int
    decreases s.len(),
{
    if s.len() == 0 {
        0
    } else {
        10 * digits_value(s.drop_last()) + ((s.last() as u32) as int - ('0' as u32) as int)
    }
}

/// The integer a cell's text spells, if it is one: digits, with an
/// optional minus sign.
pub open spec fn int_value(s: Seq<char>) -> Option<int> {
    if s.len() > 1 && s[0] == '-' && all_digits(s.drop_first()) {
        Some(-digits_value(s.drop_first()))
    } else if s.len() > 0 && all_digits(s) {
        Some(digits_value(s))
    } else {
        None
    }
}

/// The cell a field's text becomes: an integer where it spells one that
/// fits in 64 bits, else the text itself.
pub open spec fn cell_of(s: Seq<char>) -> CellView {
    match int_value(s) {
        Some(v) => if i64::MIN <= v <= i64::MAX {
            CellView::Int(v)
        } else {
            CellView::Text(s)
        },
        None => CellView::Text(s),
    }
}

proof fn lemma_digits_value_nonneg(s: Seq<char>)
    requires
        all_digits(s),
    ensures
        digits_value(s) >= 0,
    decreases s.len(),
{
    if s.len() > 0 {
        assert(is_digit(s[s.len() - 1]));
        lemma_digits_value_nonneg(s.drop_last());
    }
}

/// Reads the digits `cs[lo..]` as a magnitude, if it is at most 2^63.
fn magnitude(cs: &Vec<char>, lo: usize) -> (r: Option<u64>)
    requires
        lo <= cs@.len(),
        all_digits(cs@.subrange(lo as int, cs@.len() as int)),
    ensures
        r matches Some(v) ==> v == digits_value(cs@.subrange(lo as int, cs@.len() as int)) && v
            <= 0x8000_0000_0000_0000,
        r is None ==> digits_value(cs@.subrange(lo as int, cs@.len() as int)) > 0x8000_0000_0000_0000,
{
    let mut acc: u64 = 0;
    let mut i: usize = lo;
    while i < cs.len()
        invariant
            lo <= i <= cs@.len(),
            all_digits(cs@.subrange(lo as int, cs@.len() as int)),
            acc == digits_value(cs@.subrange(lo as int, i as int)),
            acc <= 0x8000_0000_0000_0000,
        decreases cs.len() - i,
    {
        let ghost pre = cs@.subrange(lo as int, i + 1);
        assert(pre.drop_last() == cs@.subrange(lo as int, i as int));
        assert(cs@.subrange(lo as int, cs@.len() as int)[i - lo] == cs@[i as int]);
        assert(is_digit(cs@[i as int]));
        let d = (cs[i] as u32 - '0' as u32) as u64;
        let next: u128 = acc as u128 * 10 + d as u128;
        if next > 0x8000_0000_0000_0000 {
            proof {
                assert forall|j: int| 0 <= j < cs@.len() - (i + 1) implies is_digit(
                    #[trigger] cs@.subrange(i + 1, cs@.len() as int)[j],
                ) by {
                    assert(cs@.subrange(i + 1, cs@.len() as int)[j] == cs@.subrange(
                        lo as int,
                        cs@.len() as int,
                    )[j + i + 1 - lo]);
                }
                lemma_digits_grow(cs@.subrange(lo as int, cs@.len() as int), i + 1 - lo);
                assert(cs@.subrange(lo as int, cs@.len() as int).take(i + 1 - lo) == pre);
            }
            return None;
        }
        acc = next as u64;
        i = i + 1;
    }
    Some(acc)
}

/// A number's digits spell no less once more digits follow.
proof fn lemma_digits_grow(s: Seq<char>, n: int)
    requires
        0 <= n <= s.len(),
        all_digits(s),
    ensures
        digits_value(s) >= digits_value(s.take(n)),
    decreases s.len() - n,
{
    if n < s.len() {
        lemma_digits_grow(s, n + 1);
        assert(s.take(n + 1).drop_last() == s.take(n));
        assert(is_digit(s[n]));
        assert(all_digits(s.take(n))) by {
            assert forall|j: int| 0 <= j < n implies is_digit(#[trigger] s.take(n)[j]) by {
                assert(s.take(n)[j] == s[j]);
            }
        }
        lemma_digits_value_nonneg(s.take(n));
    } else {
        assert(s.take(n) == s);
    }
}

/// The cell that a field's text becomes.
pub fn parse_cell(cs: &Vec<char>) -> (r: Cell)
    ensures
        r@ == cell_of(cs@),
{
    let s = string_of(cs, 0, cs.len());
    assert(cs@.subrange(0, cs@.len() as int) == cs@);
    let negative = cs.len() > 1 && cs[0] == '-';
    let lo: usize = if negative { 1 } else { 0 };
    if cs.len() == 0 {
        return Cell::Text(s);
    }
    let digits = {
        let mut ok = true;
        let mut i: usize = lo;
        while i < cs.len()
            invariant
                lo <= i <= cs@.len(),
                ok == all_digits(cs@.subrange(lo as int, i as int)),
            decreases cs.len() - i,
        {
            let ghost pre = cs@.subrange(lo as int, i + 1);
            assert(pre.drop_last() == cs@.subrange(lo as int, i as int));
            if !('0' <= cs[i] && cs[i] <= '9') {
                assert(!is_digit(pre[i - lo]));
                ok = false;
            } else if ok {
                assert forall|j: int| 0 <= j < pre.len() implies is_digit(#[trigger] pre[j]) by {
                    if j < i - lo {
                        assert(pre[j] == cs@.subrange(lo as int, i as int)[j]);
                    }
                }
            } else {
                let ghost bad = choose|j: int|
                    0 <= j < i - lo && !is_digit(#[trigger] cs@.subrange(lo as int, i as int)[j]);
                assert(pre[bad] == cs@.subrange(lo as int, i as int)[bad]);
            }
            i = i + 1;
        }
        ok
    };
    proof {
        if negative {
            assert(cs@.drop_first() == cs@.subrange(1, cs@.len() as int));
            assert(!is_digit(cs@[0]));
            assert(!all_digits(cs@));
        } else {
            assert(cs@ == cs@.subrange(0, cs@.len() as int));
            if cs@.len() > 1 && cs@[0] == '-' {
            }
        }
    }
    if !digits {
        return Cell::Text(s);
    }
    proof {
        if negative {
            assert(int_value(cs@) == Some(-digits_value(cs@.subrange(1, cs@.len() as int))));
        } else {
            assert(int_value(cs@) == Some(digits_value(cs@.subrange(0, cs@.len() as int))));
        }
    }
    match magnitude(cs, lo) {
        None => Cell::Text(s),
        Some(m) => {
            if negative {
                if m == 0x8000_0000_0000_0000 {
                    Cell::Int(i64::MIN)
                } else {
                    Cell::Int(-(m as i64))
                }
            } else if m > 0x7fff_ffff_ffff_ffff {
                Cell::Text(s)
            } else {
                Cell::Int(m as i64)
            }
        },
    }
}

/// The character of a decimal digit.
pub open spec fn digit_char(d: nat) -> char {
    (('0' as u32) + d) as char
}

/// The decimal digits of `n`.
pub open spec fn decimal(n: nat) -> Seq<char>
    decreases n,
{
    if n < 10 {
        seq![digit_char(n)]
    } else {
        decimal(n / 10).push(digit_char(n % 10))
    }
}

/// Appends the decimal digits of `n`.
pub fn push_decimal(s: &mut String, n: usize)
    ensures
        final(s)@ == old(s)@ + decimal(n as nat),
    decreases n,
{
    if n >= 10 {
        push_decimal(s, n / 10);
    }
    let d = (n % 10) as u8;
    push_char(s, ('0' as u8 + d) as char);
    proof {
        if n < 10 {
            assert(old(s)@ + decimal(n as nat) == old(s)@.push(digit_char(n as nat)));
        }
    }
}

/// The name a column gets in a text without a header: `column_1`, ...
pub open spec fn generated_name(k: nat) -> Seq<char> {
    seq!['c', 'o', 'l', 'u', 'm', 'n', '_'] + decimal(k + 1)
}

/// The column names a text's records give.
pub open spec fn csv_names(s: Seq<char>) -> Seq<Seq<char>> {
    let recs = csv_records(s);
    if header_present(s) {
        recs[0]
    } else {
        Seq::new(recs[0].len(), |k: int| generated_name(k as nat))
    }
}

/// The records of a text that hold data.
pub open spec fn csv_data(s: Seq<char>) -> Seq<Seq<Seq<char>>> {
    if header_present(s) {
        csv_records(s).drop_first()
    } else {
        csv_records(s)
    }
}

pub open spec fn pattern_column() -> Seq<char> {
    seq!['p', 'a', 't', 't', 'e', 'r', 'n']
}

pub open spec fn symbol_column() -> Seq<char> {
    seq!['s', 'y', 'm', 'b', 'o', 'l']
}

/// The columns of a batch: those of its text, then the two tags.
pub open spec fn batch_names(s: Seq<char>) -> Seq<Seq<char>> {
    csv_names(s) + seq![pattern_column(), symbol_column()]
}

/// One row of a batch: the record's cells, then the template and the key.
/// A column of the text holds integers where it has data and every data
/// field of it spells a 64-bit integer; otherwise it holds text.
pub open spec fn column_kind(s: Seq<char>, k: int) -> ColumnKind {
    if csv_data(s).len() > 0 && (forall|r: int|
        0 <= r < csv_data(s).len() ==> #[trigger] cell_of(csv_data(s)[r][k]) is Int) {
        ColumnKind::Int
    } else {
        ColumnKind::Text
    }
}

/// The kinds of the text's own columns.
pub open spec fn text_kinds(s: Seq<char>) -> Seq<ColumnKind> {
    Seq::new(csv_names(s).len(), |k: int| column_kind(s, k))
}

/// The kinds of a batch's columns: those of its text, then two text tags.
pub open spec fn batch_kinds(s: Seq<char>) -> Seq<ColumnKind> {
    text_kinds(s) + seq![ColumnKind::Text, ColumnKind::Text]
}

/// The cell a field becomes in a column of the kind `kind`.
pub open spec fn field_cell(f: Seq<char>, kind: ColumnKind) -> CellView {
    if kind == ColumnKind::Int {
        cell_of(f)
    } else {
        CellView::Text(f)
    }
}

/// One row of a batch: the record's cells, then the template and the key.
pub open spec fn batch_row(
    fields: Seq<Seq<char>>,
    kinds: Seq<ColumnKind>,
    pattern: Seq<char>,
    symbol: Seq<char>,
) -> Seq<CellView> {
    Seq::new(fields.len(), |k: int| field_cell(fields[k], kinds[k])) + seq![
        CellView::Text(pattern),
        CellView::Text(symbol),
    ]
}

/// Every data record has one field per column.
pub open spec fn widths_agree(s: Seq<char>) -> bool {
    forall|k: int| 0 <= k < csv_data(s).len() ==> (#[trigger] csv_data(s)[k]).len() == csv_names(s).len()
}

/// Why an archive gave no batch.
#[derive(Debug)]
pub enum ExtractionError {
    /// The archive, its first entry, or that entry's text could not be read.
    Unreadable,
    /// The text holds no record.
    NoRecords,
    /// A data record (counted from zero) with another number of fields
    /// than there are columns.
    RowWidth { row: usize },
}

/// What reading the text `csv` as a batch gives: no batch where it holds no
/// record or a record of the wrong width, else the tagged rows.
pub open spec fn batch_outcome(
    csv: Seq<char>,
    pattern: Seq<char>,
    symbol: Seq<char>,
    r: Result<Table, ExtractionError>,
) -> bool {
    &&& csv_records(csv).len() == 0 ==> (r matches Err(ExtractionError::NoRecords))
    &&& csv_records(csv).len() > 0 && !widths_agree(csv) ==> (r matches Err(
        ExtractionError::RowWidth { .. },
    ))
    &&& r matches Err(ExtractionError::RowWidth { row }) ==> row < csv_data(csv).len()
        && csv_data(csv)[row as int].len() != csv_names(csv).len()
    &&& !(r matches Err(ExtractionError::Unreadable))
    &&& csv_records(csv).len() > 0 && widths_agree(csv) ==> (r matches Ok(t) && t.names()
        == batch_names(csv) && t.kinds() == batch_kinds(csv) && t.records() == csv_data(
        csv,
    ).map_values(|f: Seq<Seq<char>>| batch_row(f, text_kinds(csv), pattern, symbol)))
}

/// The text of an archive's first entry, where it can be read as UTF-8.
pub uninterp spec fn archive_text(bytes: Seq<u8>) -> Option<Seq<char>>;

/// Relies on zip::ZipArchive::new, ZipArchive::by_index and the entry's
/// std::io::Read::read_to_string: the UTF-8 text of the archive's first
/// entry, or nothing where the archive, that entry or its text is unreadable.
#[verifier::external_body]
fn first_entry_text(bytes: &[u8]) -> (r: Option<String>)
    ensures
        r is Some == archive_text(bytes@) is Some,
        r matches Some(t) ==> t@ == archive_text(bytes@)->0,
{
    let mut archive = zip::ZipArchive::new(std::io::Cursor::new(bytes)).ok()?;
    let mut entry = archive.by_index(0).ok()?;
    let mut text = String::new();
    std::io::Read::read_to_string(&mut entry, &mut text).ok()?;
    Some(text)
}

/// The batch held by an archive: its first entry's text, read as records
/// and tagged with the partition template and the partition key.
pub fn extract_batch(zip_bytes: &[u8], pattern: &str, symbol: &str) -> (r: Result<
    Table,
    ExtractionError,
>)
    ensures
        archive_text(zip_bytes@) is None ==> r matches Err(ExtractionError::Unreadable),
        archive_text(zip_bytes@) matches Some(t) ==> batch_outcome(t, pattern@, symbol@, r),
{
    match first_entry_text(zip_bytes) {
        None => Err(ExtractionError::Unreadable),
        Some(text) => batch_from_csv(text.as_str(), pattern, symbol),
    }
}

/// The batch a comma-separated text gives, tagged with the partition
/// template and the partition key.
pub fn batch_from_csv(csv: &str, pattern: &str, symbol: &str) -> (r: Result<Table, ExtractionError>)
    ensures
        batch_outcome(csv@, pattern@, symbol@, r),
{
    let header = has_header(csv);
    let cs = chars_of(csv);
    let lines = text_lines(&cs);
    let ghost recs = csv_records(csv@);
    let ghost lv = nonblank(split_on(csv@, '\n'));
    assert(seqs_view(lines@) == lv);
    if lines.len() == 0 {
        return Err(ExtractionError::NoRecords);
    }
    let first = split_fields(&lines[0]);
    assert(seqs_view(first@) == recs[0]);
    let width = first.len();
    let mut names: Vec<String> = Vec::new();
    let mut k: usize = 0;
    while k < width
        invariant
            k <= width == first@.len(),
            seqs_view(first@) == recs[0],
            recs == csv_records(csv@),
            header == header_present(csv@),
            names@.len() == k,
            names_view(names@) == csv_names(csv@).take(k as int),
            csv_names(csv@).len() == width,
        decreases width - k,
    {
        let name = if header {
            string_of(&first[k], 0, first[k].len())
        } else {
            let mut g = String::new();
            push_all(&mut g, "column_");
            proof {
                reveal_strlit("column_");
                assert("column_"@ =~= seq!['c', 'o', 'l', 'u', 'm', 'n', '_']);
            }
            push_decimal(&mut g, k + 1);
            g
        };
        proof {
            assert(first@[k as int]@.subrange(0, first@[k as int]@.len() as int) == first@[k as int]@);
            assert(seqs_view(first@)[k as int] == first@[k as int]@);
        }
        let ghost before = names@;
        names.push(name);
        assert(names_view(names@) =~= csv_names(csv@).take(k + 1)) by {
            assert(names_view(before) == csv_names(csv@).take(k as int));
            assert forall|j: int| 0 <= j < k + 1 implies #[trigger] names_view(names@)[j]
                == csv_names(csv@).take(k + 1)[j] by {
                if j < k {
                    assert(names@[j] == before[j]);
                    assert(names_view(before)[j] == csv_names(csv@).take(k as int)[j]);
                }
            }
        }
        k = k + 1;
    }
    assert(csv_names(csv@).take(width as int) == csv_names(csv@));
    let start: usize = if header { 1 } else { 0 };
    let ghost data = csv_data(csv@);
    assert(data.len() == lines@.len() - start);
    let mut records: Vec<Vec<Vec<char>>> = Vec::new();
    let mut i: usize = start;
    while i < lines.len()
        invariant
            start <= i <= lines@.len(),
            start == (if header { 1int } else { 0int }),
            recs == csv_records(csv@),
            recs.len() == lines@.len(),
            recs.len() > 0,
            header == header_present(csv@),
            seqs_view(lines@) == lv,
            recs == lv.map_values(|l: Seq<char>| fields_of(l)),
            data == csv_data(csv@),
            data.len() == lines@.len() - start,
            width == csv_names(csv@).len(),
            records@.len() == i - start,
            forall|j: int| 0 <= j < i - start ==> seqs_view(#[trigger] records@[j]@) == data[j],
            forall|j: int| 0 <= j < i - start ==> (#[trigger] data[j]).len() == width,
        decreases lines.len() - i,
    {
        let fields = split_fields(&lines[i]);
        proof {
            assert(data[i - start] == recs[i as int]);
            assert(seqs_view(fields@) == data[i - start]);
        }
        if fields.len() != width {
            proof {
                assert(data[i - start].len() != csv_names(csv@).len());
            }
            return Err(ExtractionError::RowWidth { row: i - start });
        }
        let ghost before = records@;
        records.push(fields);
        proof {
            assert forall|j: int| 0 <= j < i + 1 - start implies seqs_view(#[trigger] records@[j]@) == data[j] by {
                if j < i - start {
                    assert(records@[j] == before[j]);
                }
            }
        }
        i = i + 1;
    }
    let n = records.len();
    let ghost tk = text_kinds(csv@);
    let mut kinds: Vec<ColumnKind> = Vec::new();
    let mut k: usize = 0;
    while k < width
        invariant
            k <= width,
            width == csv_names(csv@).len(),
            n == records@.len() == data.len(),
            data == csv_data(csv@),
            tk == text_kinds(csv@),
            forall|j: int| 0 <= j < n ==> seqs_view(#[trigger] records@[j]@) == data[j],
            forall|j: int| 0 <= j < n ==> (#[trigger] data[j]).len() == width,
            kinds@ == tk.take(k as int),
        decreases width - k,
    {
        let mut all_int = n > 0;
        let mut r: usize = 0;
        while r < n
            invariant
                k < width,
                r <= n,
                n == records@.len() == data.len(),
                forall|j: int| 0 <= j < n ==> seqs_view(#[trigger] records@[j]@) == data[j],
                forall|j: int| 0 <= j < n ==> (#[trigger] data[j]).len() == width,
                all_int == (n > 0 && forall|q: int| 0 <= q < r ==> #[trigger] cell_of(data[q][k as int]) is Int),
            decreases n - r,
        {
            assert(records@[r as int]@.len() == width);
            assert(seqs_view(records@[r as int]@)[k as int] == records@[r as int]@[k as int]@);
            let c = parse_cell(&records[r][k]);
            let is_int = match c {
                Cell::Int(_) => true,
                Cell::Text(_) => false,
            };
            if !is_int {
                all_int = false;
            }
            r = r + 1;
        }
        let kind = if all_int { ColumnKind::Int } else { ColumnKind::Text };
        proof {
            assert(kind == column_kind(csv@, k as int));
        }
        kinds.push(kind);
        assert(kinds@ =~= tk.take(k + 1));
        k = k + 1;
    }
    assert(tk.take(width as int) =~= tk);
    let mut rows: Vec<Vec<Cell>> = Vec::new();
    let mut r: usize = 0;
    while r < n
        invariant
            r <= n,
            n == records@.len() == data.len(),
            width == csv_names(csv@).len(),
            kinds@ == tk,
            tk == text_kinds(csv@),
            tk.len() == width,
            rows@.len() == r,
            forall|j: int| 0 <= j < n ==> seqs_view(#[trigger] records@[j]@) == data[j],
            forall|j: int| 0 <= j < n ==> (#[trigger] data[j]).len() == width,
            rows_view(rows@) == data.take(r as int).map_values(
                |f: Seq<Seq<char>>| batch_row(f, tk, pattern@, symbol@),
            ),
        decreases n - r,
    {
        let fields = &records[r];
        assert(fields@.len() == width);
        let mut row: Vec<Cell> = Vec::new();
        let mut j: usize = 0;
        while j < width
            invariant
                j <= width == fields@.len(),
                kinds@ == tk,
                tk.len() == width,
                row@.len() == j,
                forall|q: int| 0 <= q < j ==> (#[trigger] row@[q])@ == field_cell(fields@[q]@, tk[q]),
            decreases width - j,
        {
            let c = if kinds[j] == ColumnKind::Int {
                parse_cell(&fields[j])
            } else {
                assert(fields@[j as int]@.subrange(0, fields@[j as int]@.len() as int) == fields@[j as int]@);
                Cell::Text(string_of(&fields[j], 0, fields[j].len()))
            };
            let ghost before = row@;
            row.push(c);
            proof {
                assert forall|q: int| 0 <= q < j + 1 implies (#[trigger] row@[q])@ == field_cell(fields@[q]@, tk[q]) by {
                    if q < j {
                        assert(row@[q] == before[q]);
                    }
                }
            }
            j = j + 1;
        }
        let ghost cells = row@;
        row.push(Cell::Text(pattern.to_owned()));
        row.push(Cell::Text(symbol.to_owned()));
        proof {
            let b = batch_row(data[r as int], tk, pattern@, symbol@);
            assert(row@ == cells.push(row@[width as int]).push(row@[width + 1]));
            assert(row_view(row) =~= b) by {
                assert forall|q: int| 0 <= q < width implies #[trigger] row_view(row)[q] == b[q] by {
                    assert(row@[q] == cells[q]);
                    assert(seqs_view(fields@)[q] == fields@[q]@);
                }
            }
        }
        let ghost before = rows@;
        let ghost added = row;
        rows.push(row);
        proof {
            let f = |x: Seq<Seq<char>>| batch_row(x, tk, pattern@, symbol@);
            assert(data.take(r + 1) == data.take(r as int).push(data[r as int]));
            assert(rows_view(rows@) =~= data.take(r + 1).map_values(f)) by {
                assert forall|q: int| 0 <= q < r + 1 implies #[trigger] rows_view(rows@)[q]
                    == data.take(r + 1).map_values(f)[q] by {
                    if q < r {
                        assert(rows@[q] == before[q]);
                        assert(rows_view(before)[q] == data.take(r as int).map_values(f)[q]);
                    } else {
                        assert(rows@[q] == added);
                    }
                }
            }
        }
        r = r + 1;
    }
    let ghost named = names@;
    names.push("pattern".to_owned());
    names.push("symbol".to_owned());
    kinds.push(ColumnKind::Text);
    kinds.push(ColumnKind::Text);
    proof {
        reveal_strlit("pattern");
        reveal_strlit("symbol");
        assert("pattern"@ =~= pattern_column());
        assert("symbol"@ =~= symbol_column());
        assert(names@ == named.push(names@[width as int]).push(names@[width + 1]));
        assert(names_view(names@) =~= batch_names(csv@)) by {
            assert forall|q: int| 0 <= q < width implies #[trigger] names_view(names@)[q]
                == batch_names(csv@)[q] by {
                assert(names@[q] == named[q]);
            }
        }
        assert(kinds@ =~= batch_kinds(csv@));
        assert(data.take(data.len() as int) == data);
        let rv = rows_view(rows@);
        assert forall|q: int| 0 <= q < rv.len() implies row_fits(#[trigger] rv[q], kinds@) by {
            let row = rv[q];
            assert(row == batch_row(data[q], tk, pattern@, symbol@));
            assert forall|c: int| 0 <= c < kinds@.len() implies has_kind(#[trigger] row[c], kinds@[c]) by {
                if c < width {
                    if tk[c] == ColumnKind::Int {
                        assert(cell_of(data[q][c]) is Int);
                    }
                }
            }
        }
    }
    match Table::new(names, kinds, rows) {
        Ok(t) => Ok(t),
        Err(_) => Err(ExtractionError::NoRecords),
    }
}

} // verus!
