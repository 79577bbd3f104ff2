//! Text columns of a segment, decoded once and read by row.

use crate::compression::dictionary::decode_dict_and_indices;
use crate::compression::{CompressedColumn, CompressionType};
use crate::scan::nulls::{count_non_null, expand};
use crate::text;
use std::cmp::Ordering;
use vstd::prelude::*;
use vstd::slice::slice_subrange;
use vstd::utf8::*;

verus! {

/// A decoded text column with constant-time access to the string of a row.
pub enum SegTextColumn {
    /// Dictionary entries, and per row the index of its entry; `u32::MAX` stands for null.
    Dict { entries: Vec<String>, row_to_entry: Vec<u32> },
    /// A buffer, and per row the offset and length of its string; an offset of `u32::MAX` stands
    /// for null.
    Lz4 { buf: Vec<u8>, row_to_range: Vec<(u32, u16)> },
    /// The same value for all rows.
    SegBy(Option<String>),
}

/// Whether the column has a row and the string of the row, if it is not null, exists.
pub open spec fn readable(col: SegTextColumn, row: int) -> bool {
    match col {
        SegTextColumn::Dict { entries, row_to_entry } => {
            &&& row < row_to_entry@.len()
            &&& row_to_entry@[row] == u32::MAX || row_to_entry@[row] < entries@.len()
        },
        SegTextColumn::Lz4 { buf, row_to_range } => {
            &&& row < row_to_range@.len()
            &&& row_to_range@[row].0 == u32::MAX || row_to_range@[row].0 + row_to_range@[row].1
                <= buf@.len()
        },
        SegTextColumn::SegBy(_) => true,
    }
}

/// Whether the first `rows` rows are readable.
pub open spec fn all_readable(col: SegTextColumn, rows: int) -> bool {
    forall|row: int| 0 <= row < rows ==> #[trigger] readable(col, row)
}

/// The string of a row; in a buffer, bytes that are not UTF-8 read as the empty string.
pub open spec fn str_at(col: SegTextColumn, row: int) -> Option<Seq<char>> {
    match col {
        SegTextColumn::Dict { entries, row_to_entry } => {
            let idx = row_to_entry@[row];
            if idx == u32::MAX {
                None
            } else {
                Some(entries@[idx as int]@)
            }
        },
        SegTextColumn::Lz4 { buf, row_to_range } => {
            let range = row_to_range@[row];
            if range.0 == u32::MAX {
                None
            } else {
                Some(text::text_or_empty(buf@.subrange(range.0 as int, range.0 + range.1)))
            }
        },
        SegTextColumn::SegBy(value) => match value {
            Some(s) => Some(s@),
            None => None,
        },
    }
}

/// The text of an optional string slice.
pub open spec fn opt_text(s: Option<&str>) -> Option<Seq<char>> {
    match s {
        Some(s) => Some(s@),
        None => None,
    }
}

impl SegTextColumn {
    /// Whether the column has a row and the string of the row, if it is not null, exists.
    pub fn is_readable(&self, row: usize) -> (r: bool)
        ensures
            r == readable(*self, row as int),
    {
        match self {
            SegTextColumn::Dict { entries, row_to_entry } => row < row_to_entry.len() && (
            row_to_entry[row] == u32::MAX || (row_to_entry[row] as usize) < entries.len()),
            SegTextColumn::Lz4 { buf, row_to_range } => row < row_to_range.len() && (
            row_to_range[row].0 == u32::MAX || row_to_range[row].0 as u64
                + row_to_range[row].1 as u64 <= buf.len() as u64),
            SegTextColumn::SegBy(_) => true,
        }
    }

    /// The string of a row, or `None` if it is null.
    pub fn get_str(&self, row: usize) -> (s: Option<&str>)
        requires
            readable(*self, row as int),
        ensures
            opt_text(s) == str_at(*self, row as int),
    {
        match self {
            SegTextColumn::Dict { entries, row_to_entry } => {
                let idx: u32 = row_to_entry[row];
                if idx == u32::MAX {
                    None
                } else {
                    Some(entries[idx as usize].as_str())
                }
            },
            SegTextColumn::Lz4 { buf, row_to_range } => {
                let range: (u32, u16) = row_to_range[row];
                if range.0 == u32::MAX {
                    None
                } else {
                    let end: usize = buf.len();
                    let from: usize = range.0 as usize;
                    Some(
                        text::from_utf8_or_empty(
                            slice_subrange(buf.as_slice(), from, from + range.1 as usize),
                        ),
                    )
                }
            },
            SegTextColumn::SegBy(value) => match value {
                Some(s) => Some(s.as_str()),
                None => None,
            },
        }
    }
}

/// What the block codecs make of the data of a text column.
pub enum Unpacked {
    /// Nothing: the data is read as it is, or not at all.
    Nothing,
    /// Dictionary data in its plain form.
    Dictionary(Vec<u8>),
    /// A buffer, and per non-null row the offset and length of its string.
    Ranges(Vec<u8>, Vec<(usize, usize)>),
}

/// The dictionary data of a column: its own, or what a block codec unpacked.
pub open spec fn dictionary_data(column: CompressedColumn, unpacked: Unpacked) -> Seq<u8> {
    match (column.type_tag, unpacked) {
        (CompressionType::DictionaryLz4, Unpacked::Dictionary(data)) => data@,
        _ => column.data@,
    }
}

/// Whether what was unpacked belongs to the column and suffices for its rows.
pub open spec fn unpacked_for(column: CompressedColumn, unpacked: Unpacked) -> bool {
    let rows = column.row_count as nat;
    let count = crate::scan::nulls::non_null(column.null_bitmap@, rows);
    &&& crate::scan::nulls::covers(column.null_bitmap@, rows)
    &&& match column.type_tag {
        CompressionType::Dictionary => crate::compression::dictionary::well_formed(
            column.data@,
            count,
        ),
        CompressionType::DictionaryLz4 => unpacked is Dictionary
            && crate::compression::dictionary::well_formed(
            dictionary_data(column, unpacked),
            count,
        ),
        CompressionType::Lz4 | CompressionType::Lz4Blocked => {
            &&& unpacked matches Unpacked::Ranges(_, ranges)
            &&& column.null_bitmap@.len() > 0 ==> count <= ranges@.len()
        },
        _ => true,
    }
}

/// The range of a string as the column stores it: 32 bits of offset, 16 bits of length.
pub open spec fn stored_range(range: (usize, usize)) -> (u32, u16) {
    (range.0 as u32, range.1 as u16)
}

/// The decoded column.
pub open spec fn is_text_column(
    column: CompressedColumn,
    unpacked: Unpacked,
    col: SegTextColumn,
) -> bool {
    let rows = column.row_count as nat;
    let bitmap = column.null_bitmap@;
    let count = crate::scan::nulls::non_null(bitmap, rows);
    match column.type_tag {
        CompressionType::Dictionary | CompressionType::DictionaryLz4 => {
            let data = dictionary_data(column, unpacked);
            &&& col matches SegTextColumn::Dict { entries, row_to_entry }
            &&& text::views(entries@) == crate::compression::dictionary::parsed_dict(data, count)
            &&& row_to_entry@ == crate::scan::nulls::expanded(
                crate::compression::dictionary::parsed_indices(data, count),
                bitmap,
                rows,
                u32::MAX,
            )
        },
        _ => {
            &&& col matches SegTextColumn::Lz4 { buf, row_to_range }
            &&& unpacked matches Unpacked::Ranges(bytes, ranges)
            &&& buf@ == bytes@
            &&& row_to_range@ == crate::scan::nulls::expanded(
                ranges@.map_values(|r: (usize, usize)| stored_range(r)),
                bitmap,
                rows,
                (u32::MAX, 0u16),
            )
        },
    }
}

/// Whether a column is compressed as text.
pub open spec fn is_text_tag(tag: CompressionType) -> bool {
    tag == CompressionType::Dictionary || tag == CompressionType::DictionaryLz4 || tag
        == CompressionType::Lz4 || tag == CompressionType::Lz4Blocked
}

/// Decodes dictionary data into a column.
fn dict_column(data: &[u8], null_bitmap: &[u8], rows: usize) -> (col: SegTextColumn)
    requires
        crate::scan::nulls::covers(null_bitmap@, rows as nat),
        crate::compression::dictionary::well_formed(
            data@,
            crate::scan::nulls::non_null(null_bitmap@, rows as nat),
        ),
    ensures
        ({
            let count = crate::scan::nulls::non_null(null_bitmap@, rows as nat);
            &&& col matches SegTextColumn::Dict { entries, row_to_entry }
            &&& text::views(entries@) == crate::compression::dictionary::parsed_dict(data@, count)
            &&& row_to_entry@ == crate::scan::nulls::expanded(
                crate::compression::dictionary::parsed_indices(data@, count),
                null_bitmap@,
                rows as nat,
                u32::MAX,
            )
        }),
{
    let count: usize = count_non_null(null_bitmap, rows);
    let (dict, indices) = decode_dict_and_indices(data, count);
    let mut entries: Vec<String> = Vec::new();
    let mut i: usize = 0;
    while i < dict.len()
        invariant
            i <= dict@.len(),
            entries@.len() == i,
            forall|k: int| 0 <= k < i ==> (#[trigger] entries@[k])@ == dict@[k]@,
        decreases dict@.len() - i,
    {
        entries.push(dict[i].to_string());
        i = i + 1;
    }
    assert(text::views(entries@) =~= crate::compression::dictionary::texts(dict@));
    let row_to_entry = expand(indices.as_slice(), null_bitmap, rows, u32::MAX);
    SegTextColumn::Dict { entries, row_to_entry }
}

/// Narrows the ranges of strings to the form in which a column stores them.
fn narrow_ranges(ranges: &Vec<(usize, usize)>) -> (narrow: Vec<(u32, u16)>)
    ensures
        narrow@ == ranges@.map_values(|r: (usize, usize)| stored_range(r)),
{
    let mut narrow: Vec<(u32, u16)> = Vec::new();
    let mut i: usize = 0;
    while i < ranges.len()
        invariant
            i <= ranges@.len(),
            narrow@.len() == i,
            forall|k: int| 0 <= k < i ==> #[trigger] narrow@[k] == stored_range(ranges@[k]),
        decreases ranges@.len() - i,
    {
        let range: (usize, usize) = ranges[i];
        narrow.push((range.0 as u32, range.1 as u16));
        i = i + 1;
    }
    assert(narrow@ =~= ranges@.map_values(|r: (usize, usize)| stored_range(r)));
    narrow
}

/// Decodes a text column; `None` for a missing column and for one that is not compressed as
/// text.
pub fn decompress_text_to_seg_col(column: Option<&CompressedColumn>, unpacked: Unpacked) -> (r:
    Option<SegTextColumn>)
    requires
        column matches Some(c) ==> unpacked_for(*c, unpacked),
    ensures
        r is Some <==> (column matches Some(c) && is_text_tag(c.type_tag)),
        r matches Some(col) ==> is_text_column(*column->0, unpacked, col),
{
    match column {
        None => None,
        Some(c) => {
            let rows: usize = c.row_count as usize;
            let bitmap = c.null_bitmap.as_slice();
            match c.type_tag {
                CompressionType::Dictionary => Some(dict_column(c.data.as_slice(), bitmap, rows)),
                CompressionType::DictionaryLz4 => match &unpacked {
                    Unpacked::Dictionary(data) => Some(dict_column(data.as_slice(), bitmap, rows)),
                    _ => None,
                },
                CompressionType::Lz4 | CompressionType::Lz4Blocked => match unpacked {
                    Unpacked::Ranges(buf, ranges) => {
                        let narrow = narrow_ranges(&ranges);
                        let row_to_range = expand(narrow.as_slice(), bitmap, rows, (u32::MAX, 0u16));
                        Some(SegTextColumn::Lz4 { buf, row_to_range })
                    },
                    _ => None,
                },
                _ => None,
            }
        },
    }
}

// ---------------------------------------------------------------------------
// Filters
// ---------------------------------------------------------------------------

/// Whether a row passes an equality or inequality filter; a null passes neither.
pub open spec fn passes_eq(value: Option<Seq<char>>, constant: Seq<char>, is_ne: bool) -> bool {
    match value {
        Some(s) => (s == constant) != is_ne,
        None => false,
    }
}

/// Selects the rows whose string equals a constant, or, with `is_ne`, differs from it.
pub fn apply_text_eq_filter(
    seg_col: &SegTextColumn,
    const_str: &str,
    is_ne: bool,
    row_count: usize,
) -> (sel: Vec<bool>)
    requires
        all_readable(*seg_col, row_count as int),
    ensures
        sel@ == Seq::new(
            row_count as nat,
            |row: int| passes_eq(str_at(*seg_col, row), const_str@, is_ne),
        ),
{
    let mut sel: Vec<bool> = Vec::new();
    let mut row: usize = 0;
    while row < row_count
        invariant
            row <= row_count,
            all_readable(*seg_col, row_count as int),
            sel@.len() == row,
            forall|k: int|
                0 <= k < row ==> #[trigger] sel@[k] == passes_eq(
                    str_at(*seg_col, k),
                    const_str@,
                    is_ne,
                ),
        decreases row_count - row,
    {
        assert(readable(*seg_col, row as int));
        let pass: bool = match seg_col.get_str(row) {
            Some(s) => {
                let eq: bool = text::str_eq(s, const_str);
                if is_ne {
                    !eq
                } else {
                    eq
                }
            },
            None => false,
        };
        sel.push(pass);
        row = row + 1;
    }
    assert(sel@ =~= Seq::new(
        row_count as nat,
        |row: int| passes_eq(str_at(*seg_col, row), const_str@, is_ne),
    ));
    sel
}

/// How a LIKE pattern is matched: as a substring, a prefix, a suffix or the whole text, or by the
/// general matcher.
pub enum LikeStrategy {
    Contains(String),
    StartsWith(String),
    EndsWith(String),
    Exact(String),
    General(String),
}

/// Whether a text matches; `general` is what the general matcher says of it.
pub open spec fn like_matches(strategy: LikeStrategy, s: Seq<char>, general: bool) -> bool {
    match strategy {
        LikeStrategy::Contains(p) => text::contains_text(s, p@),
        LikeStrategy::StartsWith(p) => text::starts_with_text(s, p@),
        LikeStrategy::EndsWith(p) => text::ends_with_text(s, p@),
        LikeStrategy::Exact(p) => s == p@,
        LikeStrategy::General(_) => general,
    }
}

/// Whether a row passes a LIKE filter; a null does not, negated or not.
pub open spec fn passes_like(
    value: Option<Seq<char>>,
    strategy: LikeStrategy,
    general: bool,
    negate: bool,
) -> bool {
    match value {
        Some(s) => like_matches(strategy, s, general) != negate,
        None => false,
    }
}

/// Whether a text matches; `general` is what the general matcher says of it.
fn matches_like(strategy: &LikeStrategy, s: &str, general: bool) -> (r: bool)
    ensures
        r == like_matches(*strategy, s@, general),
{
    match strategy {
        LikeStrategy::Contains(p) => text::contains(s, p.as_str()),
        LikeStrategy::StartsWith(p) => text::starts_with(s, p.as_str()),
        LikeStrategy::EndsWith(p) => text::ends_with(s, p.as_str()),
        LikeStrategy::Exact(p) => text::str_eq(s, p.as_str()),
        LikeStrategy::General(_) => general,
    }
}

/// Selects the rows whose string matches a LIKE pattern, or, with `negate`, does not.
/// `general` holds what the general matcher says of every row, where the pattern needs it.
pub fn apply_text_like_filter(
    seg_col: &SegTextColumn,
    strategy: &LikeStrategy,
    negate: bool,
    row_count: usize,
    general: &[bool],
) -> (sel: Vec<bool>)
    requires
        all_readable(*seg_col, row_count as int),
        *strategy is General ==> row_count <= general@.len(),
    ensures
        sel@ == Seq::new(
            row_count as nat,
            |row: int| passes_like(str_at(*seg_col, row), *strategy, general@[row], negate),
        ),
{
    let mut sel: Vec<bool> = Vec::new();
    let mut row: usize = 0;
    while row < row_count
        invariant
            row <= row_count,
            all_readable(*seg_col, row_count as int),
            *strategy is General ==> row_count <= general@.len(),
            sel@.len() == row,
            forall|k: int|
                0 <= k < row ==> #[trigger] sel@[k] == passes_like(
                    str_at(*seg_col, k),
                    *strategy,
                    general@[k],
                    negate,
                ),
        decreases row_count - row,
    {
        assert(readable(*seg_col, row as int));
        let hint: bool = row < general.len() && general[row];
        let pass: bool = match seg_col.get_str(row) {
            Some(s) => {
                let matched: bool = matches_like(strategy, s, hint);
                if negate {
                    !matched
                } else {
                    matched
                }
            },
            None => false,
        };
        sel.push(pass);
        row = row + 1;
    }
    assert(sel@ =~= Seq::new(
        row_count as nat,
        |row: int| passes_like(str_at(*seg_col, row), *strategy, general@[row], negate),
    ));
    sel
}

// ---------------------------------------------------------------------------
// Collation
// ---------------------------------------------------------------------------

/// The zero-terminated bytes of a string, as the collation function of the C library takes them.
pub fn nul_terminated(s: &str) -> (bytes: Vec<u8>)
    ensures
        bytes@ == encode_utf8(s@).push(0),
{
    let mut bytes: Vec<u8> = Vec::new();
    crate::compression::dictionary::append_bytes(&mut bytes, s.as_bytes());
    assert(bytes@ =~= encode_utf8(s@));
    bytes.push(0);
    bytes
}

/// Compares two strings by a collation. `collated` is what the collation says of them: negative,
/// zero or positive. Equal strings are equal in any collation; strings that the collation does
/// not tell apart are compared by their bytes.
pub fn strcoll_cmp(a: &str, b: &str, collated: i32) -> (r: Ordering)
    ensures
        a@ == b@ <==> r == Ordering::Equal,
        a@ != b@ && collated != 0 ==> (r == Ordering::Less <==> collated < 0),
        a@ != b@ && collated == 0 ==> (r == Ordering::Less <==> text::bytes_less(
            encode_utf8(a@),
            encode_utf8(b@),
        )),
{
    if text::str_eq(a, b) {
        return Ordering::Equal;
    }
    if collated < 0 {
        Ordering::Less
    } else if collated > 0 {
        Ordering::Greater
    } else {
        let r = text::compare_bytes(a.as_bytes(), b.as_bytes());
        proof {
            if encode_utf8(a@) == encode_utf8(b@) {
                text::lemma_encode_injective(a@, b@);
            }
        }
        r
    }
}

// ---------------------------------------------------------------------------
// Laws
// ---------------------------------------------------------------------------

/// A text column that was dictionary-encoded, packed as a block or not, reads back row by row: null
/// rows are null, and the others have the values that were encoded, in their order. More values may
/// have been encoded than the column has rows for.
pub proof fn law_dictionary_column_reads_back(
    values: Seq<Seq<char>>,
    column: CompressedColumn,
    unpacked: Unpacked,
    col: SegTextColumn,
    row: int,
)
    requires
        column.type_tag == CompressionType::Dictionary || column.type_tag
            == CompressionType::DictionaryLz4 && unpacked is Dictionary,
        dictionary_data(column, unpacked) == crate::compression::dictionary::encoded(values),
        crate::scan::nulls::covers(column.null_bitmap@, column.row_count as nat),
        values.len() >= crate::scan::nulls::non_null(
            column.null_bitmap@,
            column.row_count as nat,
        ),
        crate::compression::dictionary::first_occurrences(values).len() <= u32::MAX,
        forall|i: int| 0 <= i < values.len() ==> encode_utf8(#[trigger] values[i]).len() <= u32::MAX,
        is_text_column(column, unpacked, col),
        0 <= row < column.row_count,
    ensures
        readable(col, row),
        str_at(col, row) == if crate::scan::nulls::null_at(column.null_bitmap@, row) {
            None
        } else {
            Some(
                values[crate::scan::nulls::non_null(column.null_bitmap@, row as nat) as int],
            )
        },
{
    let rows = column.row_count as nat;
    let bitmap = column.null_bitmap@;
    let count = crate::scan::nulls::non_null(bitmap, rows);
    let data = dictionary_data(column, unpacked);
    assert forall|i: int| 0 <= i < values.len() implies encode_utf8(#[trigger] values[i]).len()
        < crate::compression::dictionary::TWO_32 by {}
    crate::compression::dictionary::law_roundtrip(values, count);
    crate::scan::nulls::lemma_non_null_bounds(bitmap, rows, row as nat);
    crate::scan::nulls::lemma_non_null_bounds(bitmap, row as nat, 0);
    if let SegTextColumn::Dict { entries, row_to_entry } = col {
        let indices = crate::compression::dictionary::parsed_indices(data, count);
        let dict = crate::compression::dictionary::parsed_dict(data, count);
        assert(crate::compression::dictionary::decoded(data, count).len() == indices.len());
        assert(entries@.len() == dict.len()) by {
            assert(text::views(entries@).len() == entries@.len());
        }
        if !crate::scan::nulls::null_at(bitmap, row) {
            let rank = crate::scan::nulls::non_null(bitmap, row as nat) as int;
            crate::scan::nulls::lemma_non_null_bounds(bitmap, rows, (row + 1) as nat);
            assert(rank < count);
            let idx = indices[rank];
            assert(row_to_entry@[row] == idx);
            assert(idx < dict.len());
            assert(crate::compression::dictionary::decoded(data, count)[rank]
                == dict[idx as int]);
            assert(text::views(entries@)[idx as int] == entries@[idx as int]@);
        }
    }
}

/// A text column that a block codec unpacked reads back row by row: null rows are null, and the
/// others have the texts of their ranges, in their order. The offsets and lengths have to fit the
/// fields that they are kept in.
pub proof fn law_buffer_column_reads_back(
    buf: Vec<u8>,
    ranges: Vec<(usize, usize)>,
    column: CompressedColumn,
    col: SegTextColumn,
    row: int,
)
    requires
        column.type_tag == CompressionType::Lz4 || column.type_tag == CompressionType::Lz4Blocked,
        crate::scan::nulls::covers(column.null_bitmap@, column.row_count as nat),
        crate::scan::nulls::non_null(column.null_bitmap@, column.row_count as nat)
            <= ranges@.len(),
        forall|i: int|
            0 <= i < ranges@.len() ==> {
                &&& (#[trigger] ranges@[i]).0 + ranges@[i].1 <= buf@.len()
                &&& ranges@[i].0 < u32::MAX
                &&& ranges@[i].1 <= u16::MAX
            },
        is_text_column(column, Unpacked::Ranges(buf, ranges), col),
        0 <= row < column.row_count,
    ensures
        readable(col, row),
        str_at(col, row) == if crate::scan::nulls::null_at(column.null_bitmap@, row) {
            None
        } else {
            let range = ranges@[crate::scan::nulls::non_null(
                column.null_bitmap@,
                row as nat,
            ) as int];
            Some(text::text_or_empty(buf@.subrange(range.0 as int, range.0 + range.1)))
        },
{
    let rows = column.row_count as nat;
    let bitmap = column.null_bitmap@;
    crate::scan::nulls::lemma_non_null_bounds(bitmap, rows, row as nat);
    crate::scan::nulls::lemma_non_null_bounds(bitmap, row as nat, 0);
    if !crate::scan::nulls::null_at(bitmap, row) {
        let rank = crate::scan::nulls::non_null(bitmap, row as nat) as int;
        crate::scan::nulls::lemma_non_null_bounds(bitmap, rows, (row + 1) as nat);
        assert(ranges@[rank].0 < u32::MAX);
        if let SegTextColumn::Lz4 { buf: _, row_to_range } = col {
            assert(row_to_range@[row] == stored_range(ranges@[rank]));
        }
    }
}

/// A filter and its negation select complementary sets of the rows that are not null.
pub proof fn law_filters_complement(
    value: Option<Seq<char>>,
    constant: Seq<char>,
    strategy: LikeStrategy,
    general: bool,
)
    ensures
        value is Some ==> passes_eq(value, constant, true) == !passes_eq(value, constant, false),
        value is Some ==> passes_like(value, strategy, general, true) == !passes_like(
            value,
            strategy,
            general,
            false,
        ),
        value is None ==> !passes_eq(value, constant, true) && !passes_eq(value, constant, false),
        value is None ==> !passes_like(value, strategy, general, true) && !passes_like(
            value,
            strategy,
            general,
            false,
        ),
{
}

/// A row passes LIKE with a prefix exactly if its text is the prefix followed by some text, with a
/// suffix exactly if it is some text followed by the suffix, with a substring exactly if it is the
/// substring between two texts, and with the whole text exactly if it is that text.
pub proof fn law_like(s: Seq<char>, pattern: String, general: bool)
    ensures
        passes_like(Some(s), LikeStrategy::StartsWith(pattern), general, false) <==> exists|
            rest: Seq<char>,
        |
            s == #[trigger] (pattern@ + rest),
        passes_like(Some(s), LikeStrategy::EndsWith(pattern), general, false) <==> exists|
            front: Seq<char>,
        |
            s == #[trigger] (front + pattern@),
        passes_like(Some(s), LikeStrategy::Contains(pattern), general, false) <==> exists|
            front: Seq<char>,
            rest: Seq<char>,
        |
            s == #[trigger] (front + pattern@ + rest),
        passes_like(Some(s), LikeStrategy::Exact(pattern), general, false) <==> s == pattern@,
        passes_like(Some(s), LikeStrategy::General(pattern), general, false) <==> general,
{
    text::law_substrings(s, pattern@);
}

/// An equality filter selects the rows that hold the constant and no others, and no two constants
/// select the same row.
pub proof fn law_equality(s: Seq<char>, constant: Seq<char>, other: Seq<char>)
    ensures
        passes_eq(Some(s), s, false),
        passes_eq(Some(s), constant, false) && passes_eq(Some(s), other, false) ==> constant
            == other,
{
}

/// A column of which all rows share a value reads as that value everywhere.
pub proof fn law_shared_column_reads_back(value: Option<String>, row: int)
    ensures
        readable(SegTextColumn::SegBy(value), row),
        match value {
            Some(s) => str_at(SegTextColumn::SegBy(value), row) == Some(s@),
            None => str_at(SegTextColumn::SegBy(value), row) is None,
        },
{
}

/// The columns that are decoded as texts are those that the codecs decode as texts, whatever their
/// type is called.
pub proof fn law_text_columns(tag: CompressionType, data_type: Seq<char>)
    ensures
        is_text_tag(tag) <==> crate::scan::decompress::codec_of(tag, data_type) is Texts,
{
}

} // verus!
