//! Putting the decompressed columns of a segment together.

use crate::scan::agg::prepare::{merge_selection, ColumnRoute};
use crate::scan::agg::segment::SegmentColumns;
use crate::scan::datum::Cell;
use crate::scan::exec::repeated;
use crate::scan::text_col::SegTextColumn;
use crate::text;
use vstd::prelude::*;

verus! {

/// What decompressing a column gave: its cells; its strings, if it is read as raw strings; the
/// texts of its cells, if an aggregate compares, collects or measures them; and the rows that its
/// filter keeps (all, if empty).
pub struct ColumnOutcome {
    pub cells: Vec<Cell>,
    pub raw_strings: Option<Vec<Option<String>>>,
    pub texts: Option<Vec<Option<String>>>,
    pub selection: Vec<bool>,
}

/// As many times the same string as there are rows.
pub open spec fn same_strings(value: Option<Seq<char>>, rows: nat) -> Seq<Option<Seq<char>>> {
    Seq::new(rows, |i: int| value)
}

/// As many times the same string as there are rows.
fn repeat_string(value: &Option<String>, row_count: i32) -> (strings: Vec<Option<String>>)
    ensures
        crate::scan::agg::regex::string_views(strings@) == same_strings(
            crate::scan::agg::prepare::opt_view(*value),
            crate::scan::exec::rows_of(row_count),
        ),
{
    let mut strings: Vec<Option<String>> = Vec::new();
    let mut i: i32 = 0;
    while i < row_count
        invariant
            0 <= i,
            i <= row_count || row_count < 0 && i == 0,
            strings@.len() == i,
            forall|k: int|
                0 <= k < i ==> crate::scan::agg::prepare::opt_view(#[trigger] strings@[k])
                    == crate::scan::agg::prepare::opt_view(*value),
        decreases row_count - i,
    {
        let copy: Option<String> = match value {
            Some(s) => Some(s.as_str().to_string()),
            None => None,
        };
        strings.push(copy);
        i = i + 1;
    }
    assert(crate::scan::agg::regex::string_views(strings@) =~= same_strings(
        crate::scan::agg::prepare::opt_view(*value),
        crate::scan::exec::rows_of(row_count),
    ));
    strings
}

/// Whether a list of strings is there exactly where it is asked for, and holds the value in every
/// row.
pub open spec fn value_strings(
    strings: Option<Vec<Option<String>>>,
    wanted: bool,
    value: Option<String>,
    rows: nat,
) -> bool {
    match strings {
        Some(s) => wanted && crate::scan::agg::regex::string_views(s@) == same_strings(
            crate::scan::agg::prepare::opt_view(value),
            rows,
        ),
        None => !wanted,
    }
}

/// A segment-by column: every row has the value. `cell` is the value as a cell. The value is also
/// given as raw strings where `regexp_replace` reads the column, and as texts where an aggregate
/// does.
pub fn segment_by_column(
    cell: Cell,
    value: &Option<String>,
    row_count: i32,
    raw: bool,
    texts: bool,
) -> (o: ColumnOutcome)
    ensures
        o.cells@ == Seq::new(crate::scan::exec::rows_of(row_count), |i: int| cell),
        value_strings(o.raw_strings, raw, *value, crate::scan::exec::rows_of(row_count)),
        value_strings(o.texts, texts, *value, crate::scan::exec::rows_of(row_count)),
        o.selection@.len() == 0,
{
    ColumnOutcome {
        cells: repeated(cell, row_count),
        raw_strings: if raw {
            Some(repeat_string(value, row_count))
        } else {
            None
        },
        texts: if texts {
            Some(repeat_string(value, row_count))
        } else {
            None
        },
        selection: Vec::new(),
    }
}

/// The rows that the filters of the first `n` columns keep.
pub open spec fn kept_by(outcomes: Seq<ColumnOutcome>, n: nat) -> Seq<bool>
    decreases n,
{
    if n == 0 {
        Seq::empty()
    } else {
        crate::scan::agg::prepare::merged(
            kept_by(outcomes, (n - 1) as nat),
            outcomes[n - 1].selection@,
        )
    }
}

/// A row that is kept passes every filter that covers it, and a row that every filter keeps is
/// kept.
pub proof fn law_kept_by_all(outcomes: Seq<ColumnOutcome>, n: nat, rows: nat, row: int)
    requires
        n <= outcomes.len(),
        0 <= row < rows,
        forall|c: int|
            0 <= c < n ==> (#[trigger] outcomes[c]).selection@.len() == 0
                || outcomes[c].selection@.len() == rows,
    ensures
        kept_by(outcomes, n).len() == 0 || kept_by(outcomes, n).len() == rows,
        crate::scan::agg::aggregate::selected(kept_by(outcomes, n), row) <==> forall|c: int|
            0 <= c < n ==> crate::scan::agg::aggregate::selected(
                (#[trigger] outcomes[c]).selection@,
                row,
            ),
    decreases n,
{
    if n > 0 {
        law_kept_by_all(outcomes, (n - 1) as nat, rows, row);
        assert(outcomes[n - 1].selection@.len() == 0 || outcomes[n - 1].selection@.len() == rows);
    }
}

/// Whether a segment and its selection are put together from the outcomes of its columns.
pub open spec fn is_assembled(
    row_count: usize,
    routes: Seq<ColumnRoute>,
    outcomes: Seq<ColumnOutcome>,
    seg_text: Seq<Option<SegTextColumn>>,
    seg: SegmentColumns,
    selection: Seq<bool>,
) -> bool {
    &&& seg.row_count == row_count
    &&& seg.cells@ == outcomes.map_values(|o: ColumnOutcome| o.cells)
    &&& seg.raw_strings@ == outcomes.map_values(|o: ColumnOutcome| o.raw_strings)
    &&& seg.texts@ == outcomes.map_values(|o: ColumnOutcome| o.texts)
    &&& seg.lengths@ == routes.map_values(|route: ColumnRoute| route is Lengths)
    &&& seg.seg_text@ == seg_text
    &&& selection == kept_by(outcomes, outcomes.len())
}

/// Puts the columns of a segment together, which came by the given routes. Returns them with the
/// rows that all filters keep.
pub fn assemble_segment(
    row_count: usize,
    routes: &Vec<ColumnRoute>,
    outcomes: Vec<ColumnOutcome>,
    seg_text: Vec<Option<SegTextColumn>>,
) -> (r: (SegmentColumns, Vec<bool>))
    ensures
        is_assembled(row_count, routes@, outcomes@, seg_text@, r.0, r.1@),
{
    let ghost given = outcomes@;
    let mut rest = outcomes;
    let mut cells: Vec<Vec<Cell>> = Vec::new();
    let mut raw_strings: Vec<Option<Vec<Option<String>>>> = Vec::new();
    let mut texts: Vec<Option<Vec<Option<String>>>> = Vec::new();
    let mut selection: Vec<bool> = Vec::new();
    let mut c: usize = 0;
    while c < rest.len()
        invariant
            c <= rest@.len(),
            rest@.len() == given.len(),
            forall|k: int| c <= k < given.len() ==> #[trigger] rest@[k] == given[k],
            cells@.len() == c,
            raw_strings@.len() == c,
            texts@.len() == c,
            forall|k: int| 0 <= k < c ==> #[trigger] cells@[k] == given[k].cells,
            forall|k: int| 0 <= k < c ==> #[trigger] raw_strings@[k] == given[k].raw_strings,
            forall|k: int| 0 <= k < c ==> #[trigger] texts@[k] == given[k].texts,
            selection@ == kept_by(given, c as nat),
        decreases rest@.len() - c,
    {
        let mut outcome = ColumnOutcome {
            cells: Vec::new(),
            raw_strings: None,
            texts: None,
            selection: Vec::new(),
        };
        std::mem::swap(&mut outcome, &mut rest[c]);
        assert(outcome == given[c as int]);
        cells.push(outcome.cells);
        raw_strings.push(outcome.raw_strings);
        texts.push(outcome.texts);
        selection = merge_selection(selection, outcome.selection);
        c = c + 1;
    }
    assert(cells@ =~= given.map_values(|o: ColumnOutcome| o.cells));
    assert(raw_strings@ =~= given.map_values(|o: ColumnOutcome| o.raw_strings));
    assert(texts@ =~= given.map_values(|o: ColumnOutcome| o.texts));
    let mut lengths: Vec<bool> = Vec::new();
    let mut i: usize = 0;
    while i < routes.len()
        invariant
            i <= routes@.len(),
            lengths@.len() == i,
            forall|k: int| 0 <= k < i ==> #[trigger] lengths@[k] == (routes@[k] is Lengths),
        decreases routes@.len() - i,
    {
        lengths.push(
            match routes[i] {
                ColumnRoute::Lengths(_, _) => true,
                _ => false,
            },
        );
        i = i + 1;
    }
    assert(lengths@ =~= routes@.map_values(|route: ColumnRoute| route is Lengths));
    (SegmentColumns { row_count, cells, raw_strings, texts, lengths, seg_text }, selection)
}

/// Where the strings of a text column that rows are grouped by come from.
#[derive(Clone, Copy, PartialEq, Eq, Structural, Debug)]
pub enum TextSource {
    /// Nowhere: rows are not grouped by the column.
    Unused,
    /// The segment-by value with this number.
    SegmentBy(usize),
    /// The blob with this number.
    Blob(usize),
}

/// Where the strings of a column come from.
pub open spec fn text_source_of(
    names: Seq<Seq<char>>,
    segment_by: Seq<Seq<char>>,
    needed: Seq<bool>,
    text_groups: Seq<bool>,
    col: int,
) -> TextSource {
    let values_before = crate::scan::agg::prepare::segment_by_before(
        names,
        segment_by,
        col as nat,
    );
    if !needed[col] || !text_groups[col] {
        TextSource::Unused
    } else if segment_by.contains(names[col]) {
        TextSource::SegmentBy(values_before as usize)
    } else {
        TextSource::Blob((col - values_before) as usize)
    }
}

/// Decides for every column where its strings come from, if rows are grouped by it.
pub fn text_sources(
    col_names: &Vec<String>,
    segment_by: &Vec<String>,
    needed: &Vec<bool>,
    text_groups: &Vec<bool>,
) -> (sources: Vec<TextSource>)
    requires
        needed@.len() == col_names@.len(),
        text_groups@.len() == col_names@.len(),
    ensures
        sources@ == Seq::new(
            col_names@.len(),
            |col: int|
                text_source_of(
                    text::views(col_names@),
                    text::views(segment_by@),
                    needed@,
                    text_groups@,
                    col,
                ),
        ),
{
    let ghost names = text::views(col_names@);
    let ghost seg = text::views(segment_by@);
    let mut sources: Vec<TextSource> = Vec::new();
    let mut values: usize = 0;
    let mut blobs: usize = 0;
    let mut col: usize = 0;
    while col < col_names.len()
        invariant
            col <= col_names@.len(),
            names == text::views(col_names@),
            seg == text::views(segment_by@),
            needed@.len() == col_names@.len(),
            text_groups@.len() == col_names@.len(),
            values == crate::scan::agg::prepare::segment_by_before(names, seg, col as nat),
            values + blobs == col,
            sources@.len() == col,
            forall|c: int|
                0 <= c < col ==> #[trigger] sources@[c] == text_source_of(
                    names,
                    seg,
                    needed@,
                    text_groups@,
                    c,
                ),
        decreases col_names@.len() - col,
    {
        assert(names[col as int] == col_names@[col as int]@);
        let by_segment: bool = text::contains_name(segment_by, col_names[col].as_str());
        let source = if !needed[col] || !text_groups[col] {
            TextSource::Unused
        } else if by_segment {
            TextSource::SegmentBy(values)
        } else {
            TextSource::Blob(blobs)
        };
        sources.push(source);
        if by_segment {
            values = values + 1;
        } else {
            blobs = blobs + 1;
        }
        col = col + 1;
    }
    assert(sources@ =~= Seq::new(
        col_names@.len(),
        |col: int| text_source_of(names, seg, needed@, text_groups@, col),
    ));
    sources
}

/// The strings of a column come from nowhere unless the column is read and rows are grouped by it;
/// a segment-by column takes its value, numbered by the segment-by columns before it, and any other
/// its blob, numbered by the others.
pub proof fn law_text_sources(
    names: Seq<Seq<char>>,
    segment_by: Seq<Seq<char>>,
    needed: Seq<bool>,
    text_groups: Seq<bool>,
    raw: Seq<bool>,
    lengths: Seq<bool>,
    quals: Seq<crate::scan::agg::prepare::BatchQual>,
    col: int,
)
    requires
        0 <= col < names.len() <= usize::MAX,
        quals.len() <= usize::MAX,
    ensures
        ({
            let source = text_source_of(names, segment_by, needed, text_groups, col);
            let route = crate::scan::agg::prepare::route_of(
                names,
                segment_by,
                needed,
                raw,
                lengths,
                quals,
                col,
            );
            &&& source is Unused <==> !needed[col] || !text_groups[col]
            &&& source matches TextSource::SegmentBy(v) ==> segment_by.contains(names[col]) && route
                == ColumnRoute::SegmentBy(v)
            &&& source matches TextSource::Blob(b) ==> !segment_by.contains(names[col])
                && match route {
                ColumnRoute::RawStrings(n, _) => n == b,
                ColumnRoute::Lengths(n, _) => n == b,
                ColumnRoute::Like(n, _) => n == b,
                ColumnRoute::TextEq(n, _) => n == b,
                ColumnRoute::Plain(n) => n == b,
                _ => false,
            }
        }),
{
}

/// A column of which all rows share a value has that value, or its null, in every row, as cells and
/// as strings, and drops no row.
pub proof fn law_shared_value_everywhere(
    strings: Option<Vec<Option<String>>>,
    wanted: bool,
    value: Option<String>,
    rows: nat,
    row: int,
)
    requires
        value_strings(strings, wanted, value, rows),
        0 <= row < rows,
    ensures
        strings is Some <==> wanted,
        strings matches Some(s) ==> s@.len() == rows && match value {
            Some(v) => s@[row] matches Some(t) && t@ == v@,
            None => s@[row] is None,
        },
{
    if let Some(s) = strings {
        let all = crate::scan::agg::regex::string_views(s@);
        assert(all.len() == s@.len());
        assert(all[row] == crate::scan::agg::prepare::opt_view(s@[row]));
    }
}

/// Every column of a segment is what came of that column: its cells, its strings and its texts. Its
/// cells hold lengths exactly if it was decompressed to lengths, and a row is selected exactly if no
/// column drops it.
pub proof fn law_assembled(
    row_count: usize,
    routes: Seq<ColumnRoute>,
    outcomes: Seq<ColumnOutcome>,
    seg_text: Seq<Option<SegTextColumn>>,
    seg: SegmentColumns,
    selection: Seq<bool>,
    c: int,
    row: int,
)
    requires
        is_assembled(row_count, routes, outcomes, seg_text, seg, selection),
        0 <= c < outcomes.len(),
        routes.len() == outcomes.len(),
        0 <= row < row_count,
        forall|k: int|
            0 <= k < outcomes.len() ==> (#[trigger] outcomes[k]).selection@.len() == 0
                || outcomes[k].selection@.len() == row_count,
    ensures
        seg.row_count == row_count,
        seg.cells@.len() == outcomes.len() && seg.cells@[c] == outcomes[c].cells,
        seg.raw_strings@.len() == outcomes.len() && seg.raw_strings@[c] == outcomes[c].raw_strings,
        seg.texts@.len() == outcomes.len() && seg.texts@[c] == outcomes[c].texts,
        seg.lengths@.len() == outcomes.len() && (seg.lengths@[c] <==> routes[c] is Lengths),
        seg.seg_text@ == seg_text,
        crate::scan::agg::aggregate::selected(selection, row) <==> forall|k: int|
            0 <= k < outcomes.len() ==> crate::scan::agg::aggregate::selected(
                (#[trigger] outcomes[k]).selection@,
                row,
            ),
{
    law_kept_by_all(outcomes, outcomes.len(), row_count as nat, row);
}

} // verus!
