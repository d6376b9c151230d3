//! A small offline lookup of known cell tower locations, built from a
//! regional OpenCellID CSV export in the standard OpenCellID schema:
//! `radio,mcc,net,area,cell,unit,lon,lat,range,samples,changeable,created,updated,averageSignal`.
//!
//! OpenCellID coverage is inherently incomplete and grows stale, so a lookup
//! miss means "unknown", never "this cell doesn't really exist".
//!
//! Coordinates are kept as the export's decimal text; a row is only indexed
//! when that text is something `f64::from_str` accepts.

use std::collections::HashMap;
use vstd::prelude::*;

use crate::text::{
    accepts_float, decimal, is_float_text, lemma_decimal, parse_canonical_u16, parse_unsigned,
    std_unsigned,
};

verus! {

broadcast use vstd::std_specs::hash::group_hash_axioms;

/// The pieces of `s` between occurrences of `sep`, as `str::split(sep)` yields
/// them: always at least one piece, possibly empty ones.
pub open spec fn split_on(s: Seq<char>, sep: char) -> Seq<Seq<char>>
    decreases s.len(),
{
    if s.len() == 0 {
        seq![Seq::<char>::empty()]
    } else {
        let r = split_on(s.drop_last(), sep);
        if s.last() == sep {
            r.push(Seq::<char>::empty())
        } else {
            r.update(r.len() - 1, r.last().push(s.last()))
        }
    }
}

/// A line with a trailing carriage return removed.
pub open spec fn strip_cr(l: Seq<char>) -> Seq<char> {
    if l.len() > 0 && l.last() == '\r' {
        l.drop_last()
    } else {
        l
    }
}

/// The lines of `s` as `str::lines` yields them: split at `\n`, with a `\r`
/// right before a `\n` dropped, and no empty line after a final `\n`.
pub open spec fn text_lines(s: Seq<char>) -> Seq<Seq<char>> {
    let p = split_on(s, '\n');
    let body = p.drop_last().map_values(|l: Seq<char>| strip_cr(l));
    if p.last().len() == 0 {
        body
    } else {
        body.push(p.last())
    }
}

/// The abstract content of a [`Tower`].
pub struct TowerView {
    pub radio: Seq<char>,
    pub lat: Seq<char>,
    pub lon: Seq<char>,
    pub range_m: u32,
}

/// A single tower record from the OpenCellID export.
#[derive(Debug, Clone, PartialEq)]
pub struct Tower {
    pub radio: String,
    /// Latitude, as the decimal text of the export.
    pub lat: String,
    /// Longitude, as the decimal text of the export.
    pub lon: String,
    /// OpenCellID's estimated coverage radius, in meters. This is often a
    /// rough estimate derived from sparse crowdsourced samples -- treat it
    /// generously, not as a precise cell-planning figure.
    pub range_m: u32,
}

impl View for Tower {
    type V = TowerView;

    open spec fn view(&self) -> TowerView {
        TowerView { radio: self.radio@, lat: self.lat@, lon: self.lon@, range_m: self.range_m }
    }
}

/// The index key of a tower: MCC, MNC and cell ID packed into one integer.
pub open spec fn tower_key(mcc: u16, mnc: u16, cell: u32) -> u64 {
    (mcc as int * 0x1_0000_0000_0000 + mnc as int * 0x1_0000_0000 + cell as int) as u64
}

/// The tower a CSV row describes, if all of `mcc`, `net`, `cell`, `lon`, `lat`
/// and `range` parse; rows with fewer than nine fields describe none.
pub open spec fn parse_row(line: Seq<char>) -> Option<(u64, TowerView)> {
    let f = split_on(line, ',');
    if f.len() < 9 {
        None
    } else {
        let mcc = std_unsigned(f[1], 0xffff);
        let mnc = std_unsigned(f[2], 0xffff);
        let cell = std_unsigned(f[4], 0xffff_ffff);
        let range = std_unsigned(f[8], 0xffff_ffff);
        if mcc is Some && mnc is Some && cell is Some && range is Some && is_float_text(f[6])
            && is_float_text(f[7]) {
            Some(
                (
                    tower_key(mcc->0 as u16, mnc->0 as u16, cell->0 as u32),
                    TowerView { radio: f[0], lat: f[7], lon: f[6], range_m: range->0 as u32 },
                ),
            )
        } else {
            None
        }
    }
}

/// The index built from rows in order; a later row replaces an earlier one
/// with the same key.
pub open spec fn index_rows(rows: Seq<Seq<char>>) -> Map<u64, TowerView>
    decreases rows.len(),
{
    if rows.len() == 0 {
        Map::empty()
    } else {
        let m = index_rows(rows.drop_last());
        match parse_row(rows.last()) {
            Some(entry) => m.insert(entry.0, entry.1),
            None => m,
        }
    }
}

/// The index of a CSV export: every line after the header row.
pub open spec fn csv_index(csv: Seq<char>) -> Map<u64, TowerView> {
    let ls = text_lines(csv);
    if ls.len() == 0 {
        Map::empty()
    } else {
        index_rows(ls.drop_first())
    }
}

/// The PLMN text of an index key, `"MCC-MNC"` in decimal.
pub open spec fn plmn_text(mcc: u16, mnc: u16) -> Seq<char> {
    decimal(mcc as nat) + seq!['-'] + decimal(mnc as nat)
}

/// Different (MCC, MNC, cell) triples have different keys.
pub proof fn lemma_tower_key_injective(mcc1: u16, mnc1: u16, cell1: u32, mcc2: u16, mnc2: u16, cell2: u32)
    requires
        tower_key(mcc1, mnc1, cell1) == tower_key(mcc2, mnc2, cell2),
    ensures
        mcc1 == mcc2,
        mnc1 == mnc2,
        cell1 == cell2,
{
    assert(mcc1 as int * 0x1_0000_0000_0000 + mnc1 as int * 0x1_0000_0000 + cell1 as int
        <= 0xffff_ffff_ffff_ffff);
    assert(mcc2 as int * 0x1_0000_0000_0000 + mnc2 as int * 0x1_0000_0000 + cell2 as int
        <= 0xffff_ffff_ffff_ffff);
}

/// A PLMN text names at most one (MCC, MNC) pair.
pub proof fn lemma_plmn_text_injective(a: (u16, u16), b: (u16, u16))
    requires
        plmn_text(a.0, a.1) == plmn_text(b.0, b.1),
    ensures
        a == b,
{
    lemma_decimal(a.0 as nat);
    lemma_decimal(b.0 as nat);
    lemma_decimal(a.1 as nat);
    lemma_decimal(b.1 as nat);
    let s = plmn_text(a.0, a.1);
    let la = decimal(a.0 as nat).len() as int;
    let lb = decimal(b.0 as nat).len() as int;
    assert(s[la] == '-');
    assert(plmn_text(b.0, b.1)[lb] == '-');
    if la < lb {
        assert(plmn_text(b.0, b.1)[la] == decimal(b.0 as nat)[la]);
        assert(crate::text::is_digit(decimal(b.0 as nat)[la]));
    } else if lb < la {
        assert(s[lb] == decimal(a.0 as nat)[lb]);
        assert(crate::text::is_digit(decimal(a.0 as nat)[lb]));
    }
    assert(la == lb);
    assert(decimal(a.0 as nat) =~= s.take(la));
    assert(decimal(b.0 as nat) =~= plmn_text(b.0, b.1).take(lb));
    assert(decimal(a.1 as nat) =~= s.skip(la + 1));
    assert(decimal(b.1 as nat) =~= plmn_text(b.0, b.1).skip(lb + 1));
    crate::text::lemma_decimal_injective(a.0 as nat, b.0 as nat);
    crate::text::lemma_decimal_injective(a.1 as nat, b.1 as nat);
}

pub proof fn lemma_split_on_nonempty(s: Seq<char>, sep: char)
    ensures
        split_on(s, sep).len() >= 1,
    decreases s.len(),
{
    if s.len() > 0 {
        lemma_split_on_nonempty(s.drop_last(), sep);
    }
}

/// A final line ending (`\n` or `\r\n`) does not change the lines of a
/// nonempty text that doesn't already end in a line break or carriage return.
pub proof fn lemma_final_line_ending_is_optional(s: Seq<char>)
    requires
        s.len() > 0,
        s.last() != '\n',
        s.last() != '\r',
    ensures
        text_lines(s.push('\n')) == text_lines(s),
        text_lines(s.push('\r').push('\n')) == text_lines(s),
{
    lemma_split_on_nonempty(s.drop_last(), '\n');
    let p = split_on(s, '\n');
    assert(p.last() == split_on(s.drop_last(), '\n').last().push(s.last()));
    assert(strip_cr(p.last()) == p.last());
    let t = s.push('\n');
    assert(t.drop_last() =~= s);
    assert(split_on(t, '\n') == p.push(Seq::<char>::empty()));
    assert(text_lines(t) =~= text_lines(s));
    let r = s.push('\r');
    let u = r.push('\n');
    assert(u.drop_last() =~= r);
    assert(r.drop_last() =~= s);
    let q = split_on(r, '\n');
    assert(q == p.update(p.len() - 1, p.last().push('\r')));
    assert(split_on(u, '\n') == q.push(Seq::<char>::empty()));
    assert(strip_cr(q.last()) =~= p.last());
    assert(text_lines(u) =~= text_lines(s));
}

/// A row describes a tower with key `k`.
pub open spec fn row_has_key(row: Seq<char>, k: u64) -> bool {
    parse_row(row) matches Some(e) && e.0 == k
}

/// Every tower in the index comes from a row, and for each key the last row
/// with that key wins.
pub proof fn lemma_index_holds_latest_rows(rows: Seq<Seq<char>>, k: u64)
    ensures
        index_rows(rows).contains_key(k) <==> exists|i: int|
            0 <= i < rows.len() && row_has_key(#[trigger] rows[i], k),
        index_rows(rows).contains_key(k) ==> exists|i: int|
            0 <= i < rows.len() && #[trigger] parse_row(rows[i]) == Some((k, index_rows(rows)[k]))
                && forall|j: int| i < j < rows.len() ==> !row_has_key(#[trigger] rows[j], k),
    decreases rows.len(),
{
    if rows.len() > 0 {
        let init = rows.drop_last();
        lemma_index_holds_latest_rows(init, k);
        let last = rows.len() - 1;
        assert(rows[last] == rows.last());
        assert forall|i: int| 0 <= i < init.len() implies #[trigger] init[i] == rows[i] by {}
        if row_has_key(rows.last(), k) {
            assert(parse_row(rows[last]) == Some((k, index_rows(rows)[k])));
        } else {
            if index_rows(rows).contains_key(k) {
                let i = choose|i: int|
                    0 <= i < init.len() && #[trigger] parse_row(init[i]) == Some((k, index_rows(init)[k]))
                        && forall|j: int| i < j < init.len() ==> !row_has_key(#[trigger] init[j], k);
                assert(parse_row(rows[i]) == Some((k, index_rows(rows)[k])));
                assert forall|j: int| i < j < rows.len() implies !row_has_key(#[trigger] rows[j], k) by {
                    if j < init.len() {
                        assert(init[j] == rows[j]);
                    }
                }
            }
            if exists|i: int| 0 <= i < rows.len() && row_has_key(#[trigger] rows[i], k) {
                let i = choose|i: int| 0 <= i < rows.len() && row_has_key(#[trigger] rows[i], k);
                assert(i < init.len());
                assert(row_has_key(init[i], k));
            }
        }
    }
}

/// The data rows of a CSV export: its lines after the header.
pub open spec fn csv_rows(csv: Seq<char>) -> Seq<Seq<char>> {
    let ls = text_lines(csv);
    if ls.len() == 0 {
        Seq::empty()
    } else {
        ls.drop_first()
    }
}

/// The keys of the towers that a CSV export's rows describe.
pub open spec fn csv_keys(csv: Seq<char>) -> Set<u64> {
    Set::new(
        |k: u64| exists|i: int| 0 <= i < csv_rows(csv).len() && row_has_key(#[trigger] csv_rows(csv)[i], k),
    )
}

/// The index of a CSV export holds one tower per key that a row describes,
/// taken from the last row with that key; so its length is the number of
/// distinct keys. With the contracts of [`OpenCellIdIndex::parse`] and
/// [`OpenCellIdIndex::lookup`], `lookup(p, c)` finds a tower exactly when `p`
/// is `plmn_text(mcc, mnc)` of a row's MCC and MNC and `c` its cell, and then
/// the tower of the last such row.
pub proof fn lemma_csv_index(csv: Seq<char>, k: u64)
    ensures
        csv_index(csv).dom() == csv_keys(csv),
        csv_index(csv).len() == csv_keys(csv).len(),
        csv_index(csv) == index_rows(csv_rows(csv)),
        csv_index(csv).contains_key(k) ==> exists|i: int|
            0 <= i < csv_rows(csv).len() && #[trigger] parse_row(csv_rows(csv)[i]) == Some(
                (k, csv_index(csv)[k]),
            ) && forall|j: int| i < j < csv_rows(csv).len() ==> !row_has_key(#[trigger] csv_rows(csv)[j], k),
{
    let rows = csv_rows(csv);
    if text_lines(csv).len() == 0 {
        assert(index_rows(rows) =~= Map::<u64, TowerView>::empty());
    }
    assert forall|x: u64| csv_index(csv).dom().contains(x) <==> csv_keys(csv).contains(x) by {
        lemma_index_holds_latest_rows(rows, x);
    }
    assert(csv_index(csv).dom() =~= csv_keys(csv));
    lemma_index_holds_latest_rows(rows, k);
}

/// Ranges of `chars[lo..hi]` holding the pieces between occurrences of `sep`.
fn split_ranges(chars: &[char], lo: usize, hi: usize, sep: char) -> (r: Vec<(usize, usize)>)
    requires
        lo <= hi <= chars@.len(),
    ensures
        r@.len() == split_on(chars@.subrange(lo as int, hi as int), sep).len(),
        forall|k: int|
            0 <= k < r@.len() ==> lo <= (#[trigger] r@[k]).0 <= r@[k].1 <= hi && chars@.subrange(
                r@[k].0 as int,
                r@[k].1 as int,
            ) == split_on(chars@.subrange(lo as int, hi as int), sep)[k],
{
    let mut r: Vec<(usize, usize)> = Vec::new();
    let mut start = lo;
    let mut i = lo;
    assert(chars@.subrange(lo as int, lo as int) =~= Seq::<char>::empty());
    while i < hi
        invariant
            lo <= start <= i <= hi <= chars@.len(),
            r@.len() + 1 == split_on(chars@.subrange(lo as int, i as int), sep).len(),
            forall|k: int|
                0 <= k < r@.len() ==> lo <= (#[trigger] r@[k]).0 <= r@[k].1 <= hi
                    && chars@.subrange(r@[k].0 as int, r@[k].1 as int) == split_on(
                    chars@.subrange(lo as int, i as int),
                    sep,
                )[k],
            split_on(chars@.subrange(lo as int, i as int), sep).last() == chars@.subrange(
                start as int,
                i as int,
            ),
        decreases hi - i,
    {
        let ghost prev = split_on(chars@.subrange(lo as int, i as int), sep);
        let ghost cur = chars@.subrange(lo as int, i + 1);
        assert(cur.drop_last() =~= chars@.subrange(lo as int, i as int));
        assert(cur.last() == chars@[i as int]);
        proof {
            lemma_split_on_nonempty(chars@.subrange(lo as int, i as int), sep);
        }
        if chars[i] == sep {
            r.push((start, i));
            start = i + 1;
            assert(chars@.subrange(start as int, i + 1) =~= Seq::<char>::empty());
        } else {
            assert(chars@.subrange(start as int, i + 1) =~= chars@.subrange(start as int, i as int).push(
                chars@[i as int],
            ));
        }
        i = i + 1;
    }
    proof {
        lemma_split_on_nonempty(chars@.subrange(lo as int, hi as int), sep);
    }
    r.push((start, hi));
    r
}

/// The characters of a string.
fn chars_of(s: &str) -> (v: Vec<char>)
    ensures
        v@ == s@,
{
    broadcast use vstd::string::group_string_axioms;

    let mut v: Vec<char> = Vec::new();
    for c in it: s.chars()
        invariant
            v@ == it.seq().take(it.index()),
    {
        v.push(c);
    }
    assert(v@ =~= s@);
    v
}

/// Builds a `String` from characters (std's `FromIterator<&char>` for
/// `String`, which pushes each character in order).
#[verifier::external_body]
fn string_from_chars(chars: &[char]) -> (s: String)
    ensures
        s@ == chars@,
{
    chars.iter().collect()
}


fn key_of(mcc: u16, mnc: u16, cell: u32) -> (k: u64)
    ensures
        k == tower_key(mcc, mnc, cell),
{
    mcc as u64 * 0x1_0000_0000_0000 + mnc as u64 * 0x1_0000_0000 + cell as u64
}

/// The tower a CSV row `chars[lo..hi]` describes, with its key.
fn parse_row_at(chars: &[char], lo: usize, hi: usize) -> (r: Option<(u64, Tower)>)
    requires
        lo <= hi <= chars@.len(),
    ensures
        match parse_row(chars@.subrange(lo as int, hi as int)) {
            Some(entry) => r matches Some(got) && got.0 == entry.0 && got.1@ == entry.1,
            None => r is None,
        },
{
    let ghost f = split_on(chars@.subrange(lo as int, hi as int), ',');
    let fields = split_ranges(chars, lo, hi, ',');
    if fields.len() < 9 {
        return None;
    }
    let (a1, b1) = fields[1];
    let (a2, b2) = fields[2];
    let (a4, b4) = fields[4];
    let (a6, b6) = fields[6];
    let (a7, b7) = fields[7];
    let (a8, b8) = fields[8];
    let mcc = parse_unsigned(&chars[a1..b1], 0xffff);
    let mnc = parse_unsigned(&chars[a2..b2], 0xffff);
    let cell = parse_unsigned(&chars[a4..b4], 0xffff_ffff);
    let lon_ok = accepts_float(&chars[a6..b6]);
    let lat_ok = accepts_float(&chars[a7..b7]);
    let range = parse_unsigned(&chars[a8..b8], 0xffff_ffff);
    assert(f[1] == chars@.subrange(a1 as int, b1 as int));
    assert(f[2] == chars@.subrange(a2 as int, b2 as int));
    assert(f[4] == chars@.subrange(a4 as int, b4 as int));
    assert(f[6] == chars@.subrange(a6 as int, b6 as int));
    assert(f[7] == chars@.subrange(a7 as int, b7 as int));
    assert(f[8] == chars@.subrange(a8 as int, b8 as int));
    match (mcc, mnc, cell, range) {
        (Some(mcc), Some(mnc), Some(cell), Some(range_m)) => {
            if !(lon_ok && lat_ok) {
                return None;
            }
            let (a0, b0) = fields[0];
            assert(f[0] == chars@.subrange(a0 as int, b0 as int));
            let tower = Tower {
                radio: string_from_chars(&chars[a0..b0]),
                lat: string_from_chars(&chars[a7..b7]),
                lon: string_from_chars(&chars[a6..b6]),
                range_m: range_m as u32,
            };
            Some((key_of(mcc as u16, mnc as u16, cell as u32), tower))
        },
        _ => None,
    }
}

/// Looks up towers by `(PLMN, cell ID)`, where PLMN is formatted as
/// `"MCC-MNC"` in decimal and the cell ID is the full ECI (Cell Identity) as
/// broadcast in SIB1, matching OpenCellID's `cell` column for LTE.
pub struct OpenCellIdIndex {
    towers: HashMap<u64, Tower>,
}

impl View for OpenCellIdIndex {
    type V = Map<u64, TowerView>;

    closed spec fn view(&self) -> Map<u64, TowerView> {
        self.towers@.map_values(|t: Tower| t@)
    }
}

impl OpenCellIdIndex {
    /// Indexes every row after the header; rows that don't parse are skipped,
    /// and a later row replaces an earlier one for the same tower.
    pub fn parse(csv: &str) -> (r: Self)
        ensures
            r@ == csv_index(csv@),
    {
        let chars = chars_of(csv);
        let n = chars.len();
        let pieces = split_ranges(chars.as_slice(), 0, n, '\n');
        let ghost p = split_on(chars@.subrange(0, n as int), '\n');
        let ghost lines = text_lines(csv@);
        assert(chars@.subrange(0, n as int) =~= csv@);
        proof {
            lemma_split_on_nonempty(csv@, '\n');
        }
        let m = pieces.len();
        let (last_start, last_end) = pieces[m - 1];
        let line_count = if last_start == last_end {
            m - 1
        } else {
            m
        };
        assert(lines.len() == line_count);
        let mut towers: HashMap<u64, Tower> = HashMap::new();
        let mut j: usize = 1;
        assert(towers@.map_values(|t: Tower| t@) =~= Map::<u64, TowerView>::empty());
        while j < line_count
            invariant
                1 <= j,
                line_count <= m == p.len() == pieces@.len(),
                n == chars@.len(),
                p == split_on(csv@, '\n'),
                lines == text_lines(csv@),
                lines.len() == line_count,
                line_count < m ==> p.last().len() == 0,
                forall|k: int|
                    0 <= k < pieces@.len() ==> 0 <= (#[trigger] pieces@[k]).0 <= pieces@[k].1 <= n
                        && chars@.subrange(pieces@[k].0 as int, pieces@[k].1 as int) == p[k],
                j <= line_count ==> towers@.map_values(|t: Tower| t@) == index_rows(
                    lines.subrange(1, j as int),
                ),
                j > line_count ==> line_count <= 1 && towers@.map_values(|t: Tower| t@) == Map::<u64, TowerView>::empty(),
            decreases line_count - j,
        {
            let (a, b) = pieces[j];
            let end = if j + 1 < m && b > a && chars[b - 1] == '\r' {
                b - 1
            } else {
                b
            };
            proof {
                if j + 1 < m {
                    assert(lines[j as int] == strip_cr(p[j as int]));
                    if b > a {
                        assert(chars@.subrange(a as int, b as int).last() == chars@[b - 1]);
                    }
                    assert(chars@.subrange(a as int, end as int) =~= strip_cr(p[j as int]));
                } else {
                    assert(lines[j as int] == p.last());
                }
                let rows = lines.subrange(1, j + 1);
                assert(rows.drop_last() =~= lines.subrange(1, j as int));
                assert(rows.last() == lines[j as int]);
            }
            match parse_row_at(chars.as_slice(), a, end) {
                Some((k, t)) => {
                    towers.insert(k, t);
                    assert(towers@.map_values(|t: Tower| t@) =~= index_rows(
                        lines.subrange(1, j + 1),
                    ));
                },
                None => {},
            }
            j = j + 1;
        }
        proof {
            if line_count >= 1 {
                assert(lines.drop_first() =~= lines.subrange(1, line_count as int));
            }
        }
        OpenCellIdIndex { towers }
    }

    /// The tower with this PLMN text and cell ID, if the index holds one.
    pub fn lookup(&self, plmn: &str, cell_id: u32) -> (r: Option<&Tower>)
        ensures
            match r {
                Some(t) => exists|mcc: u16, mnc: u16|
                    #![trigger plmn_text(mcc, mnc)]
                    plmn@ == plmn_text(mcc, mnc) && self@.contains_key(
                        tower_key(mcc, mnc, cell_id),
                    ) && self@[tower_key(mcc, mnc, cell_id)] == t@,
                None => forall|mcc: u16, mnc: u16|
                    #![trigger plmn_text(mcc, mnc)]
                    plmn@ == plmn_text(mcc, mnc) ==> !self@.contains_key(
                        tower_key(mcc, mnc, cell_id),
                    ),
            },
    {
        let chars = chars_of(plmn);
        let n = chars.len();
        let mut i: usize = 0;
        while i < n && chars[i] != '-'
            invariant
                i <= n == chars@.len(),
                forall|k: int| 0 <= k < i ==> chars@[k] != '-',
            decreases n - i,
        {
            i = i + 1;
        }
        if i == n {
            proof {
                assert forall|mcc: u16, mnc: u16| plmn@ != #[trigger] plmn_text(mcc, mnc) by {
                    lemma_decimal(mcc as nat);
                    assert(plmn_text(mcc, mnc)[decimal(mcc as nat).len() as int] == '-');
                }
            }
            return None;
        }
        let left = parse_canonical_u16(&chars[0..i]);
        let right = parse_canonical_u16(&chars[i + 1..n]);
        proof {
            assert forall|mcc: u16, mnc: u16| plmn@ == #[trigger] plmn_text(mcc, mnc) implies
                chars@.subrange(0, i as int) == decimal(mcc as nat) && chars@.subrange(i + 1, n as int)
                    == decimal(mnc as nat) by {
                lemma_decimal(mcc as nat);
                let l = decimal(mcc as nat).len() as int;
                assert(plmn_text(mcc, mnc)[l] == '-');
                if l > i {
                    assert(plmn_text(mcc, mnc)[i as int] == decimal(mcc as nat)[i as int]);
                    assert(crate::text::is_digit(decimal(mcc as nat)[i as int]));
                }
                assert(l == i);
                assert(chars@.subrange(0, i as int) =~= decimal(mcc as nat));
                assert(chars@.subrange(i + 1, n as int) =~= decimal(mnc as nat));
            }
        }
        match (left, right) {
            (Some(mcc), Some(mnc)) => {
                proof {
                    assert(plmn@ =~= plmn_text(mcc, mnc));
                    assert forall|x: u16, y: u16| plmn@ == #[trigger] plmn_text(x, y) implies x == mcc
                        && y == mnc by {
                        lemma_plmn_text_injective((x, y), (mcc, mnc));
                    }
                }
                let key = key_of(mcc, mnc, cell_id);
                let r = self.towers.get(&key);
                match r {
                    Some(t) => Some(t),
                    None => None,
                }
            },
            _ => None,
        }
    }

    /// The number of towers in the index.
    pub fn len(&self) -> (r: usize)
        ensures
            r == self@.len(),
    {
        proof {
            assert(self@.dom() =~= self.towers@.dom());
        }
        self.towers.len()
    }

    /// Whether the index holds no tower.
    pub fn is_empty(&self) -> (r: bool)
        ensures
            r == (self@.len() == 0),
    {
        proof {
            assert(self@.dom() =~= self.towers@.dom());
        }
        self.towers.is_empty()
    }
}

} // verus!
