//! Whether a segment holds all that an aggregation reads of it.

use crate::scan::agg::accumulator::{AggExecSpec, AggExpr, AggType};
use crate::scan::agg::aggregate::{AggState, Source};
use crate::scan::agg::group::{GroupKeyRef, GroupTable, KeyPart};
use crate::scan::agg::plan::{GroupByColSpec, GroupByExpr};
use crate::scan::agg::regex::RegexCache;
use crate::scan::agg::segment::{read_cell, read_string, row_key, SegmentColumns};
use crate::scan::agg::time::floor_mod;
use crate::scan::datum::is_text_type;
use vstd::prelude::*;

verus! {

/// Whether a column exists and holds a cell for the row, or none at all.
fn has_cell(seg: &SegmentColumns, col: i32, row: usize) -> (r: bool)
    ensures
        r == crate::scan::agg::segment::cell_ok(*seg, col as int, row as int),
{
    if col < 0 || col as usize >= seg.cells.len() {
        return false;
    }
    let cells = &seg.cells[col as usize];
    cells.is_empty() || row < cells.len()
}

/// Whether the strings of a column are held, and reach to the row.
fn has_string(strings: &Vec<Option<Vec<Option<String>>>>, col: i32, row: usize) -> (r: bool)
    ensures
        r == crate::scan::agg::segment::strings_ok(strings@, col as int, row as int),
{
    if col < 0 || col as usize >= strings.len() {
        return false;
    }
    match &strings[col as usize] {
        Some(s) => row < s.len(),
        None => false,
    }
}

/// Whether the segment holds what an aggregate reads of a row.
fn has_value(
    seg: &SegmentColumns,
    raw_cols: &Vec<bool>,
    spec: &AggExecSpec,
    row: usize,
) -> (r: bool)
    ensures
        r == crate::scan::agg::segment::value_ok(*seg, raw_cols@, *spec, row as int),
{
    let col: i32 = spec.col_idx;
    let raw: bool = col >= 0 && (col as usize) < raw_cols.len() && raw_cols[col as usize];
    match spec.agg_type {
        AggType::CountStar => true,
        AggType::Count => has_cell(seg, col, row),
        AggType::Sum | AggType::Avg => if spec.expr_kind == AggExpr::LengthOf {
            has_length(seg, raw, col, row)
        } else {
            has_cell(seg, col, row)
        },
        AggType::CountDistinct | AggType::Min | AggType::Max => if spec.expr_kind
            == AggExpr::LengthOf {
            has_length(seg, raw, col, row)
        } else if raw && spec.agg_type != AggType::CountDistinct {
            has_string(&seg.raw_strings, col, row)
        } else if is_text_type(spec.col_type_oid) {
            has_text(seg, col, row)
        } else {
            has_cell(seg, col, row)
        },
    }
}

/// Whether the segment holds what an aggregate over lengths reads of a row.
fn has_length(seg: &SegmentColumns, raw: bool, col: i32, row: usize) -> (r: bool)
    ensures
        r == if raw {
            crate::scan::agg::segment::strings_ok(seg.raw_strings@, col as int, row as int)
        } else if 0 <= col < seg.lengths@.len() && seg.lengths@[col as int] {
            crate::scan::agg::segment::cell_ok(*seg, col as int, row as int)
        } else {
            crate::scan::agg::segment::text_ok(*seg, col as int, row as int)
        },
{
    if raw {
        has_string(&seg.raw_strings, col, row)
    } else if col >= 0 && (col as usize) < seg.lengths.len() && seg.lengths[col as usize] {
        has_cell(seg, col, row)
    } else {
        has_text(seg, col, row)
    }
}

/// Whether the segment holds the cell of a row and, unless that is null, its text.
fn has_text(seg: &SegmentColumns, col: i32, row: usize) -> (r: bool)
    ensures
        r == crate::scan::agg::segment::text_ok(*seg, col as int, row as int),
{
    if !has_cell(seg, col, row) {
        return false;
    }
    if read_cell(seg, col as usize, row).is_none() {
        return true;
    }
    has_string(&seg.texts, col, row) && read_string(&seg.texts, col as usize, row).is_some()
}

/// Whether the segment holds what a group expression reads of a row, and its value is in range.
fn has_key(
    seg: &SegmentColumns,
    gs: &GroupByColSpec,
    regex: &RegexCache,
    group: usize,
    row: usize,
) -> (r: bool)
    ensures
        r == crate::scan::agg::segment::key_ok(
            *seg,
            *gs,
            crate::scan::agg::regex::results_of(regex@, group as int),
            row as int,
        ),
{
    let col: i32 = gs.col_idx;
    if !has_cell(seg, col, row) {
        return false;
    }
    match read_cell(seg, col as usize, row) {
        None => true,
        Some(c) => {
            let v: i64 = c.0.to_i64();
            match &gs.expr {
                GroupByExpr::RegexpReplace { .. } => has_string(&seg.raw_strings, col, row) && (
                match read_string(&seg.raw_strings, col as usize, row) {
                    Some(s) => regex.contains(group, s),
                    None => true,
                }),
                GroupByExpr::DateTrunc { unit_usecs, .. } => *unit_usecs > 0 && v >= i64::MIN
                    + floor_mod(v, *unit_usecs),
                GroupByExpr::Extract { .. } => true,
                GroupByExpr::AddConst { offset, .. } => v.checked_add(*offset).is_some(),
                GroupByExpr::Column => (col as usize) < seg.seg_text.len() && (
                match &seg.seg_text[col as usize] {
                    Some(t) => t.is_readable(row),
                    None => true,
                }),
            }
        },
    }
}

/// A segment with what is read of it.
pub open spec fn source_of(
    specs: Seq<AggExecSpec>,
    groups: Seq<GroupByColSpec>,
    raw_cols: Seq<bool>,
    regex: Seq<Map<Seq<char>, String>>,
    seg: SegmentColumns,
    selection: Seq<bool>,
) -> Source {
    Source { specs, groups, raw_cols, regex, seg, selection }
}

/// Whether the segment holds all that is read of a row.
fn has_row(
    specs: &Vec<AggExecSpec>,
    groups: &Vec<GroupByColSpec>,
    raw_cols: &Vec<bool>,
    seg: &SegmentColumns,
    regex: &RegexCache,
    row: usize,
    Ghost(src): Ghost<Source>,
) -> (r: bool)
    requires
        src == source_of(specs@, groups@, raw_cols@, regex@, *seg, src.selection),
    ensures
        r == crate::scan::agg::aggregate::row_ok(src, row as int),
{
    let mut g: usize = 0;
    while g < groups.len()
        invariant
            g <= groups@.len(),
            src == source_of(specs@, groups@, raw_cols@, regex@, *seg, src.selection),
            forall|k: int|
                0 <= k < g ==> crate::scan::agg::segment::key_ok(
                    *seg,
                    #[trigger] src.groups[k],
                    crate::scan::agg::regex::results_of(regex@, k),
                    row as int,
                ),
        decreases groups@.len() - g,
    {
        if !has_key(seg, &groups[g], regex, g, row) {
            assert(!crate::scan::agg::segment::key_ok(
                *seg,
                src.groups[g as int],
                crate::scan::agg::regex::results_of(regex@, g as int),
                row as int,
            ));
            return false;
        }
        g = g + 1;
    }
    let mut i: usize = 0;
    while i < specs.len()
        invariant
            i <= specs@.len(),
            src == source_of(specs@, groups@, raw_cols@, regex@, *seg, src.selection),
            forall|k: int|
                0 <= k < i ==> crate::scan::agg::segment::value_ok(
                    *seg,
                    raw_cols@,
                    #[trigger] src.specs[k],
                    row as int,
                ),
        decreases specs@.len() - i,
    {
        if !has_value(seg, raw_cols, &specs[i], row) {
            assert(!crate::scan::agg::segment::value_ok(
                *seg,
                raw_cols@,
                src.specs[i as int],
                row as int,
            ));
            return false;
        }
        i = i + 1;
    }
    true
}

/// Whether the segment holds all that is read of its selected rows.
pub fn is_ready(
    specs: &Vec<AggExecSpec>,
    groups: &Vec<GroupByColSpec>,
    raw_cols: &Vec<bool>,
    seg: &SegmentColumns,
    regex: &RegexCache,
    selection: &[bool],
) -> (r: bool)
    ensures
        r == crate::scan::agg::aggregate::source_ok(
            source_of(specs@, groups@, raw_cols@, regex@, *seg, selection@),
        ),
{
    let ghost src = source_of(specs@, groups@, raw_cols@, regex@, *seg, selection@);
    if selection.len() > 0 && seg.row_count > selection.len() {
        return false;
    }
    let mut row: usize = 0;
    while row < seg.row_count
        invariant
            row <= seg.row_count,
            src == source_of(specs@, groups@, raw_cols@, regex@, *seg, selection@),
            selection@.len() == 0 || seg.row_count <= selection@.len(),
            forall|k: int|
                0 <= k < row && crate::scan::agg::aggregate::selected(selection@, k)
                    ==> #[trigger] crate::scan::agg::aggregate::row_ok(src, k),
        decreases seg.row_count - row,
    {
        if (selection.len() == 0 || selection[row]) && !has_row(
            specs,
            groups,
            raw_cols,
            seg,
            regex,
            row,
            Ghost(src),
        ) {
            assert(!crate::scan::agg::aggregate::row_ok(src, row as int));
            return false;
        }
        row = row + 1;
    }
    true
}

// ---------------------------------------------------------------------------
// Room for groups
// ---------------------------------------------------------------------------

/// The keys of the groups after the first `n` rows of a segment: those there were, and those of
/// the selected rows that were not among them.
pub open spec fn keys_after(keys: Seq<Seq<KeyPart>>, src: Source, n: nat) -> Seq<Seq<KeyPart>>
    decreases n,
{
    if n == 0 {
        keys
    } else {
        let before = keys_after(keys, src, (n - 1) as nat);
        let key = crate::scan::agg::aggregate::source_key(src, n - 1);
        if crate::scan::agg::aggregate::selected(src.selection, n - 1) && !before.contains(key) {
            before.push(key)
        } else {
            before
        }
    }
}

/// The groups after some rows, and after a segment.
pub proof fn lemma_keys_after(st: AggState, src: Source, n: nat)
    ensures
        crate::scan::agg::aggregate::after_rows(st, src, n).keys == keys_after(st.keys, src, n),
        n == src.seg.row_count ==> crate::scan::agg::aggregate::after_segment(st, src).keys
            == if crate::scan::agg::aggregate::shares_sum(src) {
            st.keys
        } else {
            keys_after(st.keys, src, n)
        },
    decreases n,
{
    if n > 0 {
        lemma_keys_after(st, src, (n - 1) as nat);
    }
}

/// Without group expressions there is one group, with room.
pub proof fn lemma_single_group(src: Source, n: nat)
    requires
        src.groups.len() == 0,
    ensures
        keys_after(seq![Seq::<KeyPart>::empty()], src, n) == seq![Seq::<KeyPart>::empty()],
        crate::scan::agg::aggregate::groups_fit(seq![Seq::<KeyPart>::empty()]),
    decreases n,
{
    let one = seq![Seq::<KeyPart>::empty()];
    if n > 0 {
        lemma_single_group(src, (n - 1) as nat);
        assert(crate::scan::agg::aggregate::source_key(src, n - 1) =~= one[0]);
        assert(one.contains(one[0]));
    }
    reveal_with_fuel(crate::scan::agg::group::keys_bytes, 2);
    assert(one.drop_last() =~= Seq::<Seq<KeyPart>>::empty());
}

/// Groups that do not fit do not fit with more rows either.
proof fn lemma_keys_grow(keys: Seq<Seq<KeyPart>>, src: Source, k: nat, n: nat)
    requires
        k <= n,
        !crate::scan::agg::aggregate::groups_fit(keys_after(keys, src, k)),
    ensures
        !crate::scan::agg::aggregate::groups_fit(keys_after(keys, src, n)),
    decreases n,
{
    if k < n {
        lemma_keys_grow(keys, src, k, (n - 1) as nat);
        let before = keys_after(keys, src, (n - 1) as nat);
        let key = crate::scan::agg::aggregate::source_key(src, n - 1);
        assert(before.push(key).drop_last() =~= before);
    }
}

/// The bytes of two lists of keys together.
proof fn lemma_keys_bytes_parts(a: Seq<Seq<KeyPart>>, b: Seq<Seq<KeyPart>>)
    ensures
        crate::scan::agg::group::keys_bytes(a + b) == crate::scan::agg::group::keys_bytes(a)
            + crate::scan::agg::group::keys_bytes(b),
    decreases b.len(),
{
    if b.len() == 0 {
        assert(a + b =~= a);
    } else {
        lemma_keys_bytes_parts(a, b.drop_last());
        assert((a + b).drop_last() =~= a + b.drop_last());
        assert((a + b).last() == b.last());
    }
}

/// The bytes that the strings of a key take, if they are at most `most`.
fn key_bytes(key: &[GroupKeyRef], most: u64) -> (r: Option<u64>)
    ensures
        r matches Some(n) ==> n <= most && n == crate::scan::agg::group::parts_bytes(
            crate::scan::agg::group::ref_parts(key@),
        ),
        r is None ==> crate::scan::agg::group::parts_bytes(
            crate::scan::agg::group::ref_parts(key@),
        ) > most,
{
    let ghost parts = crate::scan::agg::group::ref_parts(key@);
    let mut n: u64 = 0;
    let mut i: usize = 0;
    while i < key.len()
        invariant
            i <= key@.len(),
            parts == crate::scan::agg::group::ref_parts(key@),
            parts.len() == key@.len(),
            n <= most,
            n == crate::scan::agg::group::parts_bytes(parts.take(i as int)),
        decreases key@.len() - i,
    {
        let len: usize = match &key[i] {
            GroupKeyRef::Str(s) => s.as_bytes().len(),
            _ => 0,
        };
        proof {
            assert(parts.take(i + 1).drop_last() =~= parts.take(i as int));
            assert(parts.take(i + 1).last() == parts[i as int]);
            assert(parts[i as int] == crate::scan::agg::group::ref_part(key@[i as int]));
            crate::scan::agg::group::lemma_parts_bytes_mono(parts, (i + 1) as nat);
        }
        if len as u64 > most - n {
            return None;
        }
        n = n + len as u64;
        i = i + 1;
    }
    assert(parts.take(key@.len() as int) =~= parts);
    Some(n)
}

/// Whether the groups fit after the rows of a segment were taken in. The keys that are new are
/// collected in a table of their own.
pub fn keys_fit(
    table: &GroupTable,
    specs: &Vec<AggExecSpec>,
    groups: &Vec<GroupByColSpec>,
    raw_cols: &Vec<bool>,
    seg: &SegmentColumns,
    regex: &RegexCache,
    selection: &[bool],
) -> (r: bool)
    requires
        table.wf(),
        crate::scan::agg::aggregate::source_ok(
            source_of(specs@, groups@, raw_cols@, regex@, *seg, selection@),
        ),
    ensures
        r == crate::scan::agg::aggregate::groups_fit(
            keys_after(
                table@,
                source_of(specs@, groups@, raw_cols@, regex@, *seg, selection@),
                seg.row_count as nat,
            ),
        ),
{
    let ghost src = source_of(specs@, groups@, raw_cols@, regex@, *seg, selection@);
    let ghost all = seg.row_count as nat;
    let most: u64 = u32::MAX as u64;
    let mut fresh = GroupTable::new();
    assert(table@ + fresh@ =~= table@);
    if table.len() as u64 > most || table.text_bytes() as u64 > most {
        proof {
            lemma_keys_grow(table@, src, 0, all);
        }
        return false;
    }
    let mut row: usize = 0;
    while row < seg.row_count
        invariant
            row <= seg.row_count,
            all == seg.row_count,
            most == u32::MAX,
            src == source_of(specs@, groups@, raw_cols@, regex@, *seg, selection@),
            crate::scan::agg::aggregate::source_ok(src),
            table.wf(),
            fresh.wf(),
            keys_after(table@, src, row as nat) == table@ + fresh@,
            crate::scan::agg::aggregate::groups_fit(table@ + fresh@),
        decreases seg.row_count - row,
    {
        if selection.len() == 0 || selection[row] {
            assert(crate::scan::agg::aggregate::row_ok(src, row as int));
            let key = row_key(seg, groups, regex, row);
            let ghost parts = crate::scan::agg::aggregate::source_key(src, row as int);
            assert(crate::scan::agg::group::ref_parts(key@) == parts);
            let known: bool = table.contains(key.as_slice()) || fresh.contains(key.as_slice());
            proof {
                let now = table@ + fresh@;
                if table@.contains(parts) {
                    assert(now[table@.index_of(parts)] == parts);
                }
                if fresh@.contains(parts) {
                    assert(now[table@.len() + fresh@.index_of(parts)] == parts);
                }
                if now.contains(parts) {
                    let k = now.index_of(parts);
                    if k < table@.len() {
                        assert(table@[k] == parts);
                    } else {
                        assert(fresh@[k - table@.len()] == parts);
                    }
                }
                assert(known == now.contains(parts));
                lemma_keys_bytes_parts(table@, fresh@);
                assert(now.push(parts).drop_last() =~= now);
                assert(now.push(parts) =~= table@ + fresh@.push(parts));
            }
            if !known {
                let count: u64 = table.len() as u64 + fresh.len() as u64;
                let bytes: u64 = table.text_bytes() as u64 + fresh.text_bytes() as u64;
                let fits: bool = count < most && key_bytes(
                    key.as_slice(),
                    most - bytes,
                ).is_some();
                if !fits {
                    proof {
                        lemma_keys_grow(table@, src, (row + 1) as nat, all);
                    }
                    return false;
                }
                let added: usize = fresh.find_or_insert(key.as_slice());
            }
        }
        row = row + 1;
    }
    true
}

} // verus!
