//! The result of an aggregation: its rows, given out one by one, and what is reported of how it
//! came about.

use crate::scan::agg::plan::TopN;
use crate::scan::agg::result::{apply_topn, strip_row, ResultCell};
use crate::scan::datum::Cell;
use vstd::prelude::*;

verus! {

/// What is counted while segments are aggregated.
#[derive(Clone, Copy, PartialEq, Eq, Structural, Debug)]
pub struct ScanCounters {
    /// The segments that were read.
    pub total_segments: u64,
    /// The rows that were taken in.
    pub total_rows_processed: u64,
    /// The qualifiers that were evaluated on whole columns.
    pub batch_quals_count: usize,
    /// Whether there was no WHERE clause.
    pub where_quals_null: bool,
    /// The results of `regexp_replace` that are known.
    pub regex_cache_size: u128,
    /// How often `regexp_replace` was called.
    pub regex_cache_calls: u64,
}

/// What is counted where no segment is decompressed.
pub open spec fn counters_without_scan(segments: u64) -> ScanCounters {
    ScanCounters {
        total_segments: segments,
        total_rows_processed: 0,
        batch_quals_count: 0,
        where_quals_null: true,
        regex_cache_size: 0,
        regex_cache_calls: 0,
    }
}

/// What is reported of a limit: zero where there is none.
pub open spec fn reported(topn: TopN) -> TopN {
    TopN {
        limit: if topn.limit > 0 {
            topn.limit
        } else {
            0
        },
        sort_col: topn.sort_col,
        ascending: topn.ascending,
    }
}

/// The result rows of an aggregation, how many were given out, and what is reported of them.
pub struct AggScanState {
    result_rows: Vec<Vec<Cell>>,
    result_idx: usize,
    counters: ScanCounters,
    topn: TopN,
    pre_topn_groups: usize,
}

/// The cells of all rows.
pub open spec fn cell_views(rows: Seq<Vec<Cell>>) -> Seq<Seq<Cell>> {
    rows.map_values(|r: Vec<Cell>| r@)
}

/// The cells of all result rows.
pub open spec fn plain_rows(rows: Seq<Seq<ResultCell>>) -> Seq<Seq<Cell>> {
    rows.map_values(|r: Seq<ResultCell>| crate::scan::agg::result::plain_cells(r))
}

/// Whether `cells` are those of the rows that are kept of a result: the top rows of a grouped
/// result with a limit, otherwise all rows as they are.
pub open spec fn is_result(
    rows: Seq<Vec<ResultCell>>,
    grouped: bool,
    topn: TopN,
    cells: Seq<Seq<Cell>>,
) -> bool {
    let all = crate::scan::agg::result::row_views(rows);
    if grouped && topn.limit > 0 {
        exists|top: Seq<Seq<ResultCell>>|
            {
                &&& #[trigger] crate::scan::agg::result::is_top(
                    all,
                    crate::scan::agg::result::min(topn.limit as int, rows.len() as int),
                    topn.sort_col as int,
                    topn.ascending,
                    top,
                )
                &&& cells == plain_rows(top)
            }
    } else {
        cells == plain_rows(all)
    }
}

impl AggScanState {
    /// The result rows.
    pub closed spec fn rows(&self) -> Seq<Vec<Cell>> {
        self.result_rows@
    }

    /// The rows that were not given out yet.
    pub closed spec fn remaining(&self) -> Seq<Vec<Cell>> {
        self.result_rows@.skip(self.result_idx as int)
    }

    /// Whether no more rows were given out than there are.
    pub closed spec fn wf(&self) -> bool {
        self.result_idx <= self.result_rows@.len()
    }

    /// What is reported: the counters, the limit with its column and direction, and the number of
    /// rows before the limit.
    pub closed spec fn report(&self) -> (ScanCounters, TopN, nat) {
        (self.counters, self.topn, self.pre_topn_groups as nat)
    }

    /// The result of a query that was answered from the catalog or from metadata.
    pub fn answered(row: Vec<Cell>, segments: u64) -> (s: Self)
        ensures
            s.wf(),
            s.rows() == seq![row],
            s.remaining() == seq![row],
            s.report() == (
                counters_without_scan(segments),
                crate::scan::agg::plan::no_limit(),
                0nat,
            ),
    {
        let mut result_rows: Vec<Vec<Cell>> = Vec::new();
        result_rows.push(row);
        let counters = ScanCounters {
            total_segments: segments,
            total_rows_processed: 0,
            batch_quals_count: 0,
            where_quals_null: true,
            regex_cache_size: 0,
            regex_cache_calls: 0,
        };
        let topn = TopN { limit: 0, sort_col: 0, ascending: true };
        let s = AggScanState { result_rows, result_idx: 0, counters, topn, pre_topn_groups: 0 };
        assert(s.rows() =~= seq![row]);
        assert(s.remaining() =~= seq![row]);
        s
    }

    /// The result of an aggregation over segments. A limit acts on a grouped result only; the
    /// number of rows before it is kept.
    pub fn new(
        rows: Vec<Vec<ResultCell>>,
        grouped: bool,
        topn: TopN,
        counters: ScanCounters,
    ) -> (s: Self)
        requires
            grouped && topn.limit > 0 ==> crate::scan::agg::result::sortable(
                rows@,
                topn.sort_col as int,
            ),
        ensures
            s.wf(),
            is_result(rows@, grouped, topn, cell_views(s.rows())),
            s.remaining() == s.rows(),
            s.report() == (counters, reported(topn), rows@.len()),
    {
        let pre_topn_groups: usize = rows.len();
        let ghost all = crate::scan::agg::result::row_views(rows@);
        let kept = if grouped {
            apply_topn(rows, topn.limit, topn.sort_col, topn.ascending)
        } else {
            rows
        };
        let ghost views = crate::scan::agg::result::row_views(kept@);
        let mut result_rows: Vec<Vec<Cell>> = Vec::new();
        let mut i: usize = 0;
        while i < kept.len()
            invariant
                i <= kept@.len(),
                views == crate::scan::agg::result::row_views(kept@),
                result_rows@.len() == i,
                forall|k: int|
                    0 <= k < i ==> (#[trigger] result_rows@[k])@
                        == crate::scan::agg::result::plain_cells(views[k]),
            decreases kept@.len() - i,
        {
            assert(views[i as int] == kept@[i as int]@);
            result_rows.push(strip_row(&kept[i]));
            i = i + 1;
        }
        let topn = TopN {
            limit: if topn.limit > 0 {
                topn.limit
            } else {
                0
            },
            sort_col: topn.sort_col,
            ascending: topn.ascending,
        };
        let s = AggScanState { result_rows, result_idx: 0, counters, topn, pre_topn_groups };
        assert(s.remaining() =~= s.rows());
        assert(cell_views(s.rows()) =~= plain_rows(views));
        s
    }

    /// What was counted.
    pub fn counters(&self) -> (c: ScanCounters)
        ensures
            c == self.report().0,
    {
        self.counters
    }

    /// The limit, with its column and direction.
    pub fn topn(&self) -> (t: TopN)
        ensures
            t == self.report().1,
    {
        self.topn
    }

    /// The number of rows before the limit.
    pub fn pre_topn_groups(&self) -> (n: usize)
        ensures
            n == self.report().2,
    {
        self.pre_topn_groups
    }

    /// The number of result rows.
    pub fn row_total(&self) -> (n: usize)
        ensures
            n == self.rows().len(),
    {
        self.result_rows.len()
    }

    /// Gives out the next row, or nothing once all rows were given out.
    pub fn next_row(&mut self) -> (row: Option<&Vec<Cell>>)
        requires
            old(self).wf(),
        ensures
            final(self).wf(),
            final(self).rows() == old(self).rows(),
            final(self).report() == old(self).report(),
            match row {
                Some(r) => {
                    &&& old(self).remaining().len() > 0
                    &&& *r == old(self).remaining()[0]
                    &&& final(self).remaining() == old(self).remaining().skip(1)
                },
                None => {
                    &&& old(self).remaining().len() == 0
                    &&& final(self).remaining() == old(self).remaining()
                },
            },
    {
        let i: usize = self.result_idx;
        if i < self.result_rows.len() {
            self.result_idx = i + 1;
            assert(self.remaining() =~= old(self).remaining().skip(1));
            Some(&self.result_rows[i])
        } else {
            None
        }
    }

    /// Goes back to the first row.
    pub fn rescan(&mut self)
        ensures
            final(self).wf(),
            final(self).rows() == old(self).rows(),
            final(self).report() == old(self).report(),
            final(self).remaining() == old(self).rows(),
    {
        self.result_idx = 0;
        assert(self.remaining() =~= self.result_rows@);
    }
}

/// The result of a grouped query with a limit: as many rows as the limit, or all where there are no
/// more, in the order of the sort column; and the number of groups before the limit is reported.
pub proof fn law_limited_result(
    s: AggScanState,
    rows: Seq<Vec<ResultCell>>,
    topn: TopN,
    counters: ScanCounters,
)
    requires
        topn.limit > 0,
        crate::scan::agg::result::sortable(rows, topn.sort_col as int),
        is_result(rows, true, topn, cell_views(s.rows())),
        s.report() == (counters, reported(topn), rows.len()),
    ensures
        s.rows().len() == if topn.limit < rows.len() {
            topn.limit as int
        } else {
            rows.len() as int
        },
        s.report().2 == rows.len(),
        s.report().1 == topn,
        exists|top: Seq<Seq<ResultCell>>|
            {
                &&& cell_views(s.rows()) == #[trigger] plain_rows(top)
                &&& crate::scan::agg::result::is_top(
                    crate::scan::agg::result::row_views(rows),
                    s.rows().len() as int,
                    topn.sort_col as int,
                    topn.ascending,
                    top,
                )
                &&& forall|i: int, j: int|
                    #![trigger top[i], top[j]]
                    0 <= i < j < top.len() ==> crate::scan::agg::result::in_direction(
                        top[i][topn.sort_col as int].1,
                        top[j][topn.sort_col as int].1,
                        topn.ascending,
                    )
            },
{
    let all = crate::scan::agg::result::row_views(rows);
    let count = crate::scan::agg::result::min(topn.limit as int, rows.len() as int);
    let top = choose|top: Seq<Seq<ResultCell>>|
        {
            &&& #[trigger] crate::scan::agg::result::is_top(
                all,
                count,
                topn.sort_col as int,
                topn.ascending,
                top,
            )
            &&& cell_views(s.rows()) == plain_rows(top)
        };
    let keys = crate::scan::agg::result::sort_keys(all, topn.sort_col as int);
    assert forall|i: int| 0 <= i < keys.len() implies crate::scan::agg::measure::sound(
        #[trigger] keys[i],
    ) by {
        assert(rows[i]@ == all[i]);
    }
    crate::scan::agg::result::law_topn(
        all,
        topn.limit as int,
        topn.sort_col as int,
        topn.ascending,
        top,
    );
    assert(cell_views(s.rows()).len() == plain_rows(top).len());
}

/// Without a limit all rows are kept, as they are and in their order, and the report shows none.
pub proof fn law_unlimited_result(
    s: AggScanState,
    rows: Seq<Vec<ResultCell>>,
    grouped: bool,
    topn: TopN,
    counters: ScanCounters,
    i: int,
    c: int,
)
    requires
        !grouped || topn.limit <= 0,
        is_result(rows, grouped, topn, cell_views(s.rows())),
        s.report() == (counters, reported(topn), rows.len()),
        0 <= i < rows.len(),
        0 <= c < rows[i]@.len(),
    ensures
        s.rows().len() == rows.len(),
        s.rows()[i]@.len() == rows[i]@.len(),
        s.rows()[i]@[c] == rows[i]@[c].0,
        topn.limit <= 0 ==> s.report().1.limit == 0,
{
    let all = crate::scan::agg::result::row_views(rows);
    let cells = cell_views(s.rows());
    assert(cells.len() == s.rows().len());
    assert(cells[i] == s.rows()[i]@);
    assert(all[i] == rows[i]@);
}

/// An answer that needs no segment reports the segments that were looked at, and otherwise nothing:
/// no rows, no qualifiers, no calls of `regexp_replace`, no limit.
pub proof fn law_answer_without_scan(segments: u64)
    ensures
        ({
            let c = counters_without_scan(segments);
            &&& c.total_segments == segments
            &&& c.total_rows_processed == 0
            &&& c.batch_quals_count == 0
            &&& c.where_quals_null
            &&& c.regex_cache_size == 0
            &&& c.regex_cache_calls == 0
        }),
{
}

} // verus!
