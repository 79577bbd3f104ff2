//! Columns that `regexp_replace` is applied to: their strings, and the results known so far.
//!
//! A result is asked for once per group expression and input string: inputs that occur again, in
//! later rows or in later segments, are answered from the cache.

use crate::scan::agg::plan::{GroupByColSpec, GroupByExpr};
use crate::scan::agg::segment::SegmentColumns;
use crate::scan::datum::{new_null, Cell, Datum};
use crate::scan::nulls::is_null;
use vstd::hash_map::StringHashMap;
use vstd::hash_set::StringHashSet;
use vstd::prelude::*;

verus! {

/// The results of `regexp_replace` known so far, for each group expression by input string, and
/// how often it was called.
pub struct RegexCache {
    results: Vec<StringHashMap<String>>,
    calls: u64,
}

/// A result that is asked for: the group expression whose pattern is applied, and the input.
pub struct RegexCall {
    pub group: usize,
    pub input: String,
}

/// The calls as pairs of group expression and input.
pub open spec fn call_views(calls: Seq<RegexCall>) -> Seq<(int, Seq<char>)> {
    calls.map_values(|c: RegexCall| (c.group as int, c.input@))
}

/// The results that are known for a group expression, by input.
pub open spec fn results_of(
    regex: Seq<Map<Seq<char>, String>>,
    group: int,
) -> Map<Seq<char>, String> {
    if 0 <= group < regex.len() {
        regex[group]
    } else {
        Map::empty()
    }
}

/// Whether the result of a pair of group expression and input is known.
pub open spec fn is_known(regex: Seq<Map<Seq<char>, String>>, pair: (int, Seq<char>)) -> bool {
    results_of(regex, pair.0).contains_key(pair.1)
}

/// The calls that are needed for some requests: those that are neither known nor asked for by an
/// earlier request.
pub open spec fn fresh_calls(
    regex: Seq<Map<Seq<char>, String>>,
    requests: Seq<(int, Seq<char>)>,
) -> Seq<(int, Seq<char>)>
    decreases requests.len(),
{
    if requests.len() == 0 {
        Seq::empty()
    } else {
        let earlier = fresh_calls(regex, requests.drop_last());
        if is_known(regex, requests.last()) || earlier.contains(requests.last()) {
            earlier
        } else {
            earlier.push(requests.last())
        }
    }
}

/// Every request is answered once its calls are: it was known, or is asked for. Nothing is asked
/// for twice, and nothing that is known.
pub proof fn law_calls_suffice(
    regex: Seq<Map<Seq<char>, String>>,
    requests: Seq<(int, Seq<char>)>,
)
    ensures
        forall|i: int|
            0 <= i < requests.len() ==> is_known(regex, #[trigger] requests[i]) || fresh_calls(
                regex,
                requests,
            ).contains(requests[i]),
        forall|i: int|
            0 <= i < fresh_calls(regex, requests).len() ==> !is_known(
                regex,
                #[trigger] fresh_calls(regex, requests)[i],
            ),
        fresh_calls(regex, requests).no_duplicates(),
    decreases requests.len(),
{
    if requests.len() > 0 {
        let front = requests.drop_last();
        law_calls_suffice(regex, front);
        let earlier = fresh_calls(regex, front);
        let all = fresh_calls(regex, requests);
        assert forall|i: int| 0 <= i < requests.len() implies is_known(
            regex,
            #[trigger] requests[i],
        ) || all.contains(requests[i]) by {
            if i < front.len() {
                assert(front[i] == requests[i]);
                if earlier.contains(requests[i]) {
                    let k = earlier.index_of(requests[i]);
                    assert(all[k] == earlier[k]);
                }
            } else if all.len() > earlier.len() {
                assert(all[earlier.len() as int] == requests[i]);
            }
        }
        if all.len() > earlier.len() {
            assert forall|i: int| 0 <= i < all.len() implies !is_known(
                regex,
                #[trigger] all[i],
            ) by {
                if i < earlier.len() {
                    assert(all[i] == earlier[i]);
                }
            }
            assert forall|i: int, j: int|
                0 <= i < all.len() && 0 <= j < all.len() && i != j implies all[i] != all[j] by {
                if i < earlier.len() && j < earlier.len() {
                    assert(all[i] == earlier[i] && all[j] == earlier[j]);
                } else if i < earlier.len() {
                    assert(earlier.contains(all[i]));
                } else {
                    assert(earlier.contains(all[j]));
                }
            }
        }
    }
}

/// What rows ask for: for every group expression that applies `regexp_replace`, the string of the
/// row, if it has one.
pub open spec fn row_requests(
    groups: Seq<GroupByColSpec>,
    raw_strings: Seq<Option<Vec<Option<String>>>>,
    row: int,
    n: nat,
) -> Seq<(int, Seq<char>)>
    decreases n,
{
    if n == 0 {
        Seq::empty()
    } else {
        let earlier = row_requests(groups, raw_strings, row, (n - 1) as nat);
        let g = groups[n - 1];
        if g.expr is RegexpReplace {
            match crate::scan::agg::segment::string_of(raw_strings, g.col_idx as int, row) {
                Some(s) => earlier.push((n - 1, s)),
                None => earlier,
            }
        } else {
            earlier
        }
    }
}

/// What the first `rows` rows of a segment ask for, those of them that are selected.
pub open spec fn segment_requests(
    groups: Seq<GroupByColSpec>,
    raw_strings: Seq<Option<Vec<Option<String>>>>,
    selection: Seq<bool>,
    rows: nat,
) -> Seq<(int, Seq<char>)>
    decreases rows,
{
    if rows == 0 {
        Seq::empty()
    } else {
        let earlier = segment_requests(groups, raw_strings, selection, (rows - 1) as nat);
        if crate::scan::agg::aggregate::selected(selection, rows - 1) {
            earlier + row_requests(groups, raw_strings, rows - 1, groups.len())
        } else {
            earlier
        }
    }
}

/// Whether the strings of all selected rows exist for all group expressions that need them.
pub open spec fn requests_ok(
    groups: Seq<GroupByColSpec>,
    raw_strings: Seq<Option<Vec<Option<String>>>>,
    selection: Seq<bool>,
    rows: int,
) -> bool {
    &&& selection.len() == 0 || rows <= selection.len()
    &&& forall|row: int, g: int|
        0 <= row < rows && crate::scan::agg::aggregate::selected(selection, row) && 0 <= g
            < groups.len() && (#[trigger] groups[g]).expr is RegexpReplace ==> #[trigger]
            crate::scan::agg::segment::strings_ok(raw_strings, groups[g].col_idx as int, row)
}

/// Checks whether the strings of all selected rows exist for all group expressions that need them.
pub fn requests_readable(
    groups: &Vec<GroupByColSpec>,
    seg: &SegmentColumns,
    selection: &[bool],
) -> (r: bool)
    ensures
        r == requests_ok(groups@, seg.raw_strings@, selection@, seg.row_count as int),
{
    let rows: usize = seg.row_count;
    let ghost raw = seg.raw_strings@;
    if selection.len() != 0 && selection.len() < rows {
        return false;
    }
    let mut g: usize = 0;
    while g < groups.len()
        invariant
            g <= groups@.len(),
            rows == seg.row_count,
            raw == seg.raw_strings@,
            selection@.len() == 0 || rows <= selection@.len(),
            forall|row: int, k: int|
                0 <= row < rows && crate::scan::agg::aggregate::selected(selection@, row) && 0 <= k
                    < g && (#[trigger] groups@[k]).expr is RegexpReplace ==> #[trigger]
                    crate::scan::agg::segment::strings_ok(raw, groups@[k].col_idx as int, row),
        decreases groups@.len() - g,
    {
        let col: i32 = groups[g].col_idx;
        if let GroupByExpr::RegexpReplace { .. } = groups[g].expr {
            let mut row: usize = 0;
            while row < rows
                invariant
                    g < groups@.len(),
                    row <= rows,
                    rows == seg.row_count,
                    raw == seg.raw_strings@,
                    col == groups@[g as int].col_idx,
                    groups@[g as int].expr is RegexpReplace,
                    selection@.len() == 0 || rows <= selection@.len(),
                    forall|r: int|
                        0 <= r < row && crate::scan::agg::aggregate::selected(selection@, r)
                            ==> #[trigger] crate::scan::agg::segment::strings_ok(
                            raw,
                            col as int,
                            r,
                        ),
                decreases rows - row,
            {
                if selection.is_empty() || selection[row] {
                    let exists_for_row: bool = col >= 0 && (col as usize) < seg.raw_strings.len()
                        && match &seg.raw_strings[col as usize] {
                        Some(strings) => row < strings.len(),
                        None => false,
                    };
                    if !exists_for_row {
                        assert(groups@[g as int].expr is RegexpReplace);
                        assert(!crate::scan::agg::segment::strings_ok(
                            raw,
                            groups@[g as int].col_idx as int,
                            row as int,
                        ));
                        return false;
                    }
                }
                row = row + 1;
            }
        }
        g = g + 1;
    }
    true
}

/// Whether the inputs seen for each group expression are those that are asked for.
spec fn seen_asked(seen: Seq<StringHashSet>, calls: Seq<(int, Seq<char>)>) -> bool {
    forall|g: int, t: Seq<char>|
        0 <= g < seen.len() ==> (#[trigger] seen[g]@.contains(t) <==> calls.contains((g, t)))
}

/// An empty set for each group expression.
fn empty_sets(n: usize) -> (seen: Vec<StringHashSet>)
    ensures
        seen@.len() == n,
        seen_asked(seen@, Seq::empty()),
{
    let mut seen: Vec<StringHashSet> = Vec::new();
    let mut i: usize = 0;
    while i < n
        invariant
            i <= n,
            seen@.len() == i,
            forall|g: int| 0 <= g < i ==> (#[trigger] seen@[g])@ == Set::<Seq<char>>::empty(),
        decreases n - i,
    {
        seen.push(StringHashSet::new());
        i = i + 1;
    }
    seen
}

/// Adds a request to the calls, unless it is known or asked for.
fn request(
    cache: &RegexCache,
    seen: &mut Vec<StringHashSet>,
    calls: &mut Vec<RegexCall>,
    group: usize,
    input: &str,
    Ghost(requests): Ghost<Seq<(int, Seq<char>)>>,
)
    requires
        group < old(seen)@.len(),
        call_views(old(calls)@) == fresh_calls(cache@, requests),
        seen_asked(old(seen)@, call_views(old(calls)@)),
    ensures
        final(seen)@.len() == old(seen)@.len(),
        call_views(final(calls)@) == fresh_calls(
            cache@,
            requests.push((group as int, input@)),
        ),
        seen_asked(final(seen)@, call_views(final(calls)@)),
{
    let ghost before = call_views(calls@);
    let ghost next = requests.push((group as int, input@));
    let ghost sets = seen@;
    assert(next.drop_last() =~= requests);
    assert(sets[group as int]@.contains(input@) <==> before.contains((group as int, input@)));
    if !cache.contains(group, input) && !seen[group].contains(input) {
        calls.push(RegexCall { group, input: input.to_string() });
        seen[group].insert(input.to_string());
        let ghost after = call_views(calls@);
        proof {
            assert(after =~= before.push((group as int, input@)));
            assert forall|g: int, t: Seq<char>| 0 <= g < seen@.len() implies (#[trigger]
                seen@[g]@.contains(t) <==> after.contains((g, t))) by {
                assert(sets[g]@.contains(t) <==> before.contains((g, t)));
                if before.contains((g, t)) {
                    let k = before.index_of((g, t));
                    assert(after[k] == before[k]);
                }
                if after.contains((g, t)) && (g, t) != (group as int, input@) {
                    let k = after.index_of((g, t));
                    assert(before[k] == after[k]);
                }
                assert(after[before.len() as int] == (group as int, input@));
            }
        }
    }
}

impl View for RegexCache {
    type V = Seq<Map<Seq<char>, String>>;

    closed spec fn view(&self) -> Seq<Map<Seq<char>, String>> {
        self.results@.map_values(|m: StringHashMap<String>| m@)
    }
}

/// The number of results that are known.
pub open spec fn result_count(regex: Seq<Map<Seq<char>, String>>) -> nat
    decreases regex.len(),
{
    if regex.len() == 0 {
        0
    } else {
        result_count(regex.drop_last()) + regex.last().len()
    }
}

impl RegexCache {
    /// How often a result was asked for.
    pub closed spec fn call_count(&self) -> nat {
        self.calls as nat
    }

    /// A cache without results, for so many group expressions.
    pub fn new(groups: usize) -> (c: Self)
        ensures
            c@ == Seq::new(groups as nat, |g: int| Map::<Seq<char>, String>::empty()),
            c.call_count() == 0,
    {
        let mut results: Vec<StringHashMap<String>> = Vec::new();
        let mut i: usize = 0;
        while i < groups
            invariant
                i <= groups,
                results@.len() == i,
                forall|g: int|
                    0 <= g < i ==> (#[trigger] results@[g])@ == Map::<Seq<char>, String>::empty(),
            decreases groups - i,
        {
            results.push(StringHashMap::new());
            i = i + 1;
        }
        let c = RegexCache { results, calls: 0 };
        assert(c@ =~= Seq::new(groups as nat, |g: int| Map::<Seq<char>, String>::empty()));
        c
    }

    /// Whether the result of a group expression for an input is known.
    pub fn contains(&self, group: usize, input: &str) -> (r: bool)
        ensures
            r == is_known(self@, (group as int, input@)),
    {
        group < self.results.len() && self.results[group].contains_key(input)
    }

    /// The result of a group expression for an input, if it is known.
    pub fn get(&self, group: usize, input: &str) -> (r: Option<&str>)
        ensures
            match r {
                Some(s) => is_known(self@, (group as int, input@)) && s@ == results_of(
                    self@,
                    group as int,
                )[input@]@,
                None => !is_known(self@, (group as int, input@)),
            },
    {
        if group >= self.results.len() {
            return None;
        }
        match self.results[group].get(input) {
            Some(s) => Some(s.as_str()),
            None => None,
        }
    }

    /// How often a result was asked for.
    pub fn calls(&self) -> (n: u64)
        ensures
            n == self.call_count(),
    {
        self.calls
    }

    /// The number of results that are known.
    pub fn size(&self) -> (n: u128)
        ensures
            n == result_count(self@),
    {
        let ghost all = self@;
        let mut n: u128 = 0;
        let mut i: usize = 0;
        assert(all.take(0) =~= Seq::<Map<Seq<char>, String>>::empty());
        while i < self.results.len()
            invariant
                i <= self.results@.len(),
                all == self@,
                n == result_count(all.take(i as int)),
                n <= i * 0xffff_ffff_ffff_ffff,
            decreases self.results@.len() - i,
        {
            let more: usize = self.results[i].len();
            proof {
                assert(all.take(i + 1).drop_last() =~= all.take(i as int));
                assert(all.take(i + 1).last() == self.results@[i as int]@);
                assert((i + 1) * 0xffff_ffff_ffff_ffff == i * 0xffff_ffff_ffff_ffff
                    + 0xffff_ffff_ffff_ffff);
            }
            n = n + more as u128;
            i = i + 1;
        }
        assert(all.take(self.results@.len() as int) =~= all);
        n
    }

    /// Records the result of a call.
    pub fn record(&mut self, group: usize, input: String, result: String)
        requires
            group < old(self)@.len(),
            old(self).call_count() < u64::MAX,
        ensures
            final(self)@ == old(self)@.update(
                group as int,
                old(self)@[group as int].insert(input@, result),
            ),
            final(self).call_count() == old(self).call_count() + 1,
    {
        let ghost before = self@;
        self.results[group].insert(input, result);
        self.calls = self.calls + 1;
        assert(self@ =~= before.update(group as int, before[group as int].insert(input@, result)));
    }

    /// The calls that make the results of all entries of a dictionary known, for every group
    /// expression that applies `regexp_replace` to the column.
    pub fn calls_for_entries(
        &self,
        groups: &Vec<GroupByColSpec>,
        col: usize,
        entries: &Vec<&str>,
    ) -> (calls: Vec<RegexCall>)
        ensures
            call_views(calls@) == fresh_calls(
                self@,
                entry_requests(groups@, col as int, entries@, groups@.len()),
            ),
    {
        let mut calls: Vec<RegexCall> = Vec::new();
        let mut seen = empty_sets(groups.len());
        let mut g: usize = 0;
        assert(call_views(calls@) =~= Seq::<(int, Seq<char>)>::empty());
        while g < groups.len()
            invariant
                g <= groups@.len(),
                seen@.len() == groups@.len(),
                call_views(calls@) == fresh_calls(
                    self@,
                    entry_requests(groups@, col as int, entries@, g as nat),
                ),
                seen_asked(seen@, call_views(calls@)),
            decreases groups@.len() - g,
        {
            let ghost before = entry_requests(groups@, col as int, entries@, g as nat);
            if applies(&groups[g], col) {
                let ghost all = entries@.map_values(|e: &str| (g as int, e@));
                let mut i: usize = 0;
                assert(before + all.take(0) =~= before);
                while i < entries.len()
                    invariant
                        i <= entries@.len(),
                        g < groups@.len(),
                        seen@.len() == groups@.len(),
                        all == entries@.map_values(|e: &str| (g as int, e@)),
                        call_views(calls@) == fresh_calls(self@, before + all.take(i as int)),
                        seen_asked(seen@, call_views(calls@)),
                    decreases entries@.len() - i,
                {
                    request(
                        self,
                        &mut seen,
                        &mut calls,
                        g,
                        entries[i],
                        Ghost(before + all.take(i as int)),
                    );
                    assert((before + all.take(i as int)).push((g as int, entries@[i as int]@))
                        =~= before + all.take(i + 1));
                    i = i + 1;
                }
                assert(all.take(entries@.len() as int) =~= all);
            }
            g = g + 1;
        }
        calls
    }

    /// The calls that make the results of all selected rows of a segment known.
    pub fn calls_for_rows(
        &self,
        groups: &Vec<GroupByColSpec>,
        seg: &SegmentColumns,
        selection: &[bool],
    ) -> (calls: Vec<RegexCall>)
        requires
            requests_ok(groups@, seg.raw_strings@, selection@, seg.row_count as int),
        ensures
            call_views(calls@) == fresh_calls(
                self@,
                segment_requests(
                    groups@,
                    seg.raw_strings@,
                    selection@,
                    seg.row_count as nat,
                ),
            ),
    {
        let ghost raw = seg.raw_strings@;
        let mut calls: Vec<RegexCall> = Vec::new();
        let mut seen = empty_sets(groups.len());
        let rows: usize = seg.row_count;
        let mut row: usize = 0;
        assert(call_views(calls@) =~= Seq::<(int, Seq<char>)>::empty());
        while row < rows
            invariant
                row <= rows,
                rows == seg.row_count,
                raw == seg.raw_strings@,
                requests_ok(groups@, raw, selection@, rows as int),
                call_views(calls@) == fresh_calls(
                    self@,
                    segment_requests(groups@, raw, selection@, row as nat),
                ),
                seen@.len() == groups@.len(),
                seen_asked(seen@, call_views(calls@)),
            decreases rows - row,
        {
            let ghost before = segment_requests(groups@, raw, selection@, row as nat);
            if selection.is_empty() || selection[row] {
                let mut g: usize = 0;
                assert(before + row_requests(groups@, raw, row as int, 0) =~= before);
                while g < groups.len()
                    invariant
                        g <= groups@.len(),
                        row < rows,
                        rows == seg.row_count,
                        raw == seg.raw_strings@,
                        crate::scan::agg::aggregate::selected(selection@, row as int),
                        requests_ok(groups@, raw, selection@, rows as int),
                        call_views(calls@) == fresh_calls(
                            self@,
                            before + row_requests(groups@, raw, row as int, g as nat),
                        ),
                        seen@.len() == groups@.len(),
                        seen_asked(seen@, call_views(calls@)),
                    decreases groups@.len() - g,
                {
                    let ghost so_far = before + row_requests(groups@, raw, row as int, g as nat);
                    let ghost next = before + row_requests(
                        groups@,
                        raw,
                        row as int,
                        (g + 1) as nat,
                    );
                    if let GroupByExpr::RegexpReplace { .. } = &groups[g].expr {
                        assert(groups@[g as int].expr is RegexpReplace);
                        assert(crate::scan::agg::segment::strings_ok(
                            raw,
                            groups@[g as int].col_idx as int,
                            row as int,
                        ));
                        let col: usize = groups[g].col_idx as usize;
                        match &seg.raw_strings[col] {
                            Some(strings) => match &strings[row] {
                                Some(s) => {
                                    request(
                                        self,
                                        &mut seen,
                                        &mut calls,
                                        g,
                                        s.as_str(),
                                        Ghost(so_far),
                                    );
                                    assert(so_far.push((g as int, s@)) =~= next);
                                },
                                None => {
                                    assert(so_far =~= next);
                                },
                            },
                            None => {
                                assert(so_far =~= next);
                            },
                        }
                    } else {
                        assert(so_far =~= next);
                    }
                    g = g + 1;
                }
            }
            row = row + 1;
        }
        calls
    }
}

/// Whether a group expression applies `regexp_replace` to a column.
pub open spec fn is_applied(g: GroupByColSpec, col: int) -> bool {
    g.expr is RegexpReplace && crate::scan::agg::prepare::is_column(g.col_idx, col)
}

/// Whether a group expression applies `regexp_replace` to a column.
fn applies(g: &GroupByColSpec, col: usize) -> (r: bool)
    ensures
        r == is_applied(*g, col as int),
{
    if let GroupByExpr::RegexpReplace { .. } = &g.expr {
        g.col_idx >= 0 && g.col_idx as usize == col
    } else {
        false
    }
}

/// What the entries of a dictionary ask for: each of them for every one of the first `n` group
/// expressions that apply `regexp_replace` to the column.
pub open spec fn entry_requests(
    groups: Seq<GroupByColSpec>,
    col: int,
    entries: Seq<&str>,
    n: nat,
) -> Seq<(int, Seq<char>)>
    decreases n,
{
    if n == 0 {
        Seq::empty()
    } else {
        let earlier = entry_requests(groups, col, entries, (n - 1) as nat);
        if is_applied(groups[n - 1], col) {
            earlier + entries.map_values(|e: &str| (n - 1, e@))
        } else {
            earlier
        }
    }
}

// ---------------------------------------------------------------------------
// Raw string columns
// ---------------------------------------------------------------------------

/// A column as raw strings: the string of every row, cells that say which are null, and the rows
/// that are not dropped (all, if empty).
pub struct RawColumn {
    pub strings: Vec<Option<String>>,
    pub cells: Vec<Cell>,
    pub selection: Vec<bool>,
}

/// The strings of all rows as texts.
pub open spec fn string_views(strings: Seq<Option<String>>) -> Seq<Option<Seq<char>>> {
    strings.map_values(|s: Option<String>| crate::scan::agg::prepare::opt_view(s))
}

/// The strings that the indices of a dictionary stand for.
pub open spec fn looked_up(entries: Seq<&str>, indices: Seq<u32>) -> Seq<Option<Seq<char>>> {
    indices.map_values(|i: u32| Some(entries[i as int]@))
}

/// The cells of a raw string column: without values, null where the string is.
pub open spec fn marker_cells(strings: Seq<Option<String>>) -> Seq<Cell> {
    strings.map_values(
        |s: Option<String>|
            if s is Some {
                (Datum { word: 0 }, false)
            } else {
                crate::scan::datum::null_cell()
            },
    )
}

/// The rows that are not dropped, given which values are not empty: all, if nothing is dropped;
/// a null row is dropped.
pub open spec fn kept_rows(
    bitmap: Seq<u8>,
    rows: nat,
    drop_empty: bool,
    kept_values: Seq<bool>,
) -> Seq<bool> {
    if !drop_empty {
        Seq::empty()
    } else if bitmap.len() == 0 {
        kept_values
    } else {
        Seq::new(
            rows,
            |i: int|
                !crate::scan::nulls::null_at(bitmap, i) && (kept_values.len() == 0
                    || kept_values[crate::scan::nulls::non_null(bitmap, i as nat) as int]),
        )
    }
}

/// Makes the cells of a raw string column.
pub fn make_marker_cells(strings: &Vec<Option<String>>) -> (cells: Vec<Cell>)
    ensures
        cells@ == marker_cells(strings@),
{
    let mut cells: Vec<Cell> = Vec::new();
    let mut i: usize = 0;
    while i < strings.len()
        invariant
            i <= strings@.len(),
            cells@.len() == i,
            forall|k: int| 0 <= k < i ==> #[trigger] cells@[k] == marker_cells(strings@)[k],
        decreases strings@.len() - i,
    {
        if strings[i].is_some() {
            cells.push((Datum { word: 0 }, false));
        } else {
            cells.push(new_null());
        }
        i = i + 1;
    }
    assert(cells@ =~= marker_cells(strings@));
    cells
}

/// Decodes a dictionary column to raw strings. With `drop_empty`, `kept_values` says of every
/// value whether it is not empty.
pub fn raw_dictionary_column(
    entries: &Vec<&str>,
    indices: &Vec<u32>,
    null_bitmap: &[u8],
    total: usize,
    drop_empty: bool,
    kept_values: Vec<bool>,
) -> (col: RawColumn)
    requires
        forall|i: int| 0 <= i < indices@.len() ==> (#[trigger] indices@[i]) < entries@.len(),
        crate::scan::nulls::covers(null_bitmap@, total as nat),
        null_bitmap@.len() > 0 ==> {
            let count = crate::scan::nulls::non_null(null_bitmap@, total as nat);
            &&& count <= indices@.len()
            &&& drop_empty && kept_values@.len() > 0 ==> count <= kept_values@.len()
        },
    ensures
        string_views(col.strings@) == crate::scan::nulls::expanded(
            looked_up(entries@, indices@),
            null_bitmap@,
            total as nat,
            None,
        ),
        col.cells@ == marker_cells(col.strings@),
        col.selection@ == kept_rows(null_bitmap@, total as nat, drop_empty, kept_values@),
{
    let ghost values = looked_up(entries@, indices@);
    let mut strings: Vec<Option<String>> = Vec::new();
    let mut selection: Vec<bool> = Vec::new();
    if null_bitmap.is_empty() {
        let mut i: usize = 0;
        while i < indices.len()
            invariant
                i <= indices@.len(),
                forall|k: int|
                    0 <= k < indices@.len() ==> (#[trigger] indices@[k]) < entries@.len(),
                values == looked_up(entries@, indices@),
                strings@.len() == i,
                forall|k: int|
                    0 <= k < i ==> crate::scan::agg::prepare::opt_view(#[trigger] strings@[k])
                        == values[k],
            decreases indices@.len() - i,
        {
            strings.push(Some(entries[indices[i] as usize].to_string()));
            i = i + 1;
        }
        assert(string_views(strings@) =~= values);
        if drop_empty {
            selection = kept_values;
        } else {
            assert(selection@ =~= Seq::<bool>::empty());
        }
    } else {
        let ghost all = crate::scan::nulls::expanded(values, null_bitmap@, total as nat, None);
        let ghost kept = kept_rows(null_bitmap@, total as nat, drop_empty, kept_values@);
        let mut next: usize = 0;
        let mut i: usize = 0;
        while i < total
            invariant
                i <= total,
                null_bitmap@.len() > 0,
                crate::scan::nulls::covers(null_bitmap@, total as nat),
                crate::scan::nulls::non_null(null_bitmap@, total as nat) <= indices@.len(),
                drop_empty && kept_values@.len() > 0 ==> crate::scan::nulls::non_null(
                    null_bitmap@,
                    total as nat,
                ) <= kept_values@.len(),
                forall|k: int|
                    0 <= k < indices@.len() ==> (#[trigger] indices@[k]) < entries@.len(),
                values == looked_up(entries@, indices@),
                all == crate::scan::nulls::expanded(values, null_bitmap@, total as nat, None),
                kept == kept_rows(null_bitmap@, total as nat, drop_empty, kept_values@),
                next == crate::scan::nulls::non_null(null_bitmap@, i as nat),
                strings@.len() == i,
                forall|k: int|
                    0 <= k < i ==> crate::scan::agg::prepare::opt_view(#[trigger] strings@[k])
                        == all[k],
                selection@.len() == if drop_empty {
                    i as nat
                } else {
                    0
                },
                forall|k: int| 0 <= k < selection@.len() ==> #[trigger] selection@[k] == kept[k],
            decreases total - i,
        {
            if is_null(null_bitmap, i) {
                strings.push(None);
                if drop_empty {
                    selection.push(false);
                }
            } else {
                proof {
                    crate::scan::nulls::lemma_non_null_bounds(
                        null_bitmap@,
                        total as nat,
                        (i + 1) as nat,
                    );
                }
                strings.push(Some(entries[indices[next] as usize].to_string()));
                if drop_empty {
                    if kept_values.is_empty() {
                        selection.push(true);
                    } else {
                        selection.push(kept_values[next]);
                    }
                }
                next = next + 1;
            }
            i = i + 1;
        }
        assert(string_views(strings@) =~= all);
        assert(selection@ =~= kept);
    }
    let cells = make_marker_cells(&strings);
    RawColumn { strings, cells, selection }
}

// ---------------------------------------------------------------------------
// Laws
// ---------------------------------------------------------------------------

/// The entries of a dictionary ask for a result exactly where a group expression applies
/// `regexp_replace` to the column: each entry for each such expression.
pub proof fn law_entries_asked(
    groups: Seq<GroupByColSpec>,
    col: int,
    entries: Seq<&str>,
    n: nat,
    pair: (int, Seq<char>),
)
    requires
        col >= 0,
        n <= groups.len(),
    ensures
        entry_requests(groups, col, entries, n).contains(pair) <==> {
            &&& 0 <= pair.0 < n
            &&& groups[pair.0].expr is RegexpReplace
            &&& groups[pair.0].col_idx == col
            &&& exists|e: int| 0 <= e < entries.len() && (#[trigger] entries[e])@ == pair.1
        },
    decreases n,
{
    if n > 0 {
        law_entries_asked(groups, col, entries, (n - 1) as nat, pair);
        let earlier = entry_requests(groups, col, entries, (n - 1) as nat);
        let all = entry_requests(groups, col, entries, n);
        if is_applied(groups[n - 1], col) {
            let new = entries.map_values(|e: &str| (n - 1, e@));
            lemma_contains_concat(earlier, new, pair);
            if new.contains(pair) {
                let e = new.index_of(pair);
                assert(entries[e]@ == pair.1);
            }
            if pair.0 == n - 1 && exists|e: int|
                0 <= e < entries.len() && (#[trigger] entries[e])@ == pair.1 {
                let e = choose|e: int|
                    0 <= e < entries.len() && (#[trigger] entries[e])@ == pair.1;
                assert(new[e] == pair);
            }
        }
    }
}

/// What two lists in a row contain, one of them contains.
proof fn lemma_contains_concat<T>(a: Seq<T>, b: Seq<T>, x: T)
    ensures
        (a + b).contains(x) <==> a.contains(x) || b.contains(x),
{
    if a.contains(x) {
        let i = a.index_of(x);
        assert((a + b)[i] == x);
    }
    if b.contains(x) {
        let i = b.index_of(x);
        assert((a + b)[a.len() + i] == x);
    }
    if (a + b).contains(x) {
        let i = (a + b).index_of(x);
        if i < a.len() {
            assert(a[i] == x);
        } else {
            assert(b[i - a.len()] == x);
        }
    }
}

/// A row asks for the result of its string for each group expression that applies `regexp_replace`,
/// and for nothing where it has no string.
pub proof fn law_row_asks(
    groups: Seq<GroupByColSpec>,
    raw_strings: Seq<Option<Vec<Option<String>>>>,
    row: int,
    n: nat,
    pair: (int, Seq<char>),
)
    requires
        n <= groups.len(),
    ensures
        row_requests(groups, raw_strings, row, n).contains(pair) <==> {
            &&& 0 <= pair.0 < n
            &&& groups[pair.0].expr is RegexpReplace
            &&& raw_strings[groups[pair.0].col_idx as int] matches Some(strings)
                && strings@[row] matches Some(s) && s@ == pair.1
        },
    decreases n,
{
    if n > 0 {
        law_row_asks(groups, raw_strings, row, (n - 1) as nat, pair);
        let earlier = row_requests(groups, raw_strings, row, (n - 1) as nat);
        let all = row_requests(groups, raw_strings, row, n);
        if all != earlier {
            let new = seq![all.last()];
            assert(all =~= earlier + new);
            lemma_contains_concat(earlier, new, pair);
            assert(new.contains(pair) <==> pair == all.last()) by {
                assert(new[0] == all.last());
            }
        }
    }
}

/// A segment asks for what its selected rows ask for.
pub proof fn law_segment_asks(
    groups: Seq<GroupByColSpec>,
    raw_strings: Seq<Option<Vec<Option<String>>>>,
    selection: Seq<bool>,
    rows: nat,
    pair: (int, Seq<char>),
)
    ensures
        segment_requests(groups, raw_strings, selection, rows).contains(pair) <==> exists|row: int|
            0 <= row < rows && crate::scan::agg::aggregate::selected(selection, row)
                && #[trigger] row_requests(groups, raw_strings, row, groups.len()).contains(pair),
    decreases rows,
{
    if rows > 0 {
        law_segment_asks(groups, raw_strings, selection, (rows - 1) as nat, pair);
        let earlier = segment_requests(groups, raw_strings, selection, (rows - 1) as nat);
        if crate::scan::agg::aggregate::selected(selection, rows - 1) {
            lemma_contains_concat(
                earlier,
                row_requests(groups, raw_strings, rows - 1, groups.len()),
                pair,
            );
        }
    }
}

/// A row of a dictionary column holds the entry of its value's index, and a null row nothing; its
/// cell is null exactly if it has no string.
pub proof fn law_dictionary_rows(
    entries: Seq<&str>,
    indices: Seq<u32>,
    bitmap: Seq<u8>,
    rows: nat,
    row: int,
    k: nat,
    strings: Seq<Option<String>>,
)
    requires
        0 <= row < rows,
        bitmap.len() > 0,
        k < indices.len(),
        string_views(strings) == crate::scan::nulls::expanded(
            looked_up(entries, indices),
            bitmap,
            rows,
            None,
        ),
    ensures
        strings.len() == rows,
        crate::scan::nulls::null_at(bitmap, row) ==> strings[row] is None,
        crate::scan::nulls::holds_value(bitmap, rows, row, k) ==> (strings[row] matches Some(s)
            && s@ == entries[indices[k as int] as int]@),
        marker_cells(strings).len() == strings.len(),
        marker_cells(strings)[row].1 <==> strings[row] is None,
{
    let all = string_views(strings);
    assert(all.len() == strings.len());
    assert(all[row] == crate::scan::agg::prepare::opt_view(strings[row]));
}

/// Nothing is dropped unless empty strings are; a null row is dropped with them, and of the others
/// exactly those whose value is not kept.
pub proof fn law_rows_dropped(
    bitmap: Seq<u8>,
    rows: nat,
    kept_values: Seq<bool>,
    row: int,
    k: nat,
)
    requires
        0 <= row < rows,
        k < kept_values.len(),
    ensures
        crate::scan::agg::aggregate::selected(
            kept_rows(bitmap, rows, false, kept_values),
            row,
        ),
        bitmap.len() == 0 ==> crate::scan::agg::aggregate::selected(
            kept_rows(bitmap, rows, true, kept_values),
            row,
        ) == kept_values[row],
        bitmap.len() > 0 && crate::scan::nulls::null_at(bitmap, row)
            ==> !crate::scan::agg::aggregate::selected(
            kept_rows(bitmap, rows, true, kept_values),
            row,
        ),
        bitmap.len() > 0 && crate::scan::nulls::holds_value(bitmap, rows, row, k)
            ==> crate::scan::agg::aggregate::selected(
            kept_rows(bitmap, rows, true, kept_values),
            row,
        ) == kept_values[k as int],
{
}

/// A recorded result is known from then on, as it was recorded; what was known stays known, and
/// the results of other group expressions and inputs stay as they were.
pub proof fn law_recorded_results(
    regex: Seq<Map<Seq<char>, String>>,
    group: int,
    input: Seq<char>,
    result: String,
    pair: (int, Seq<char>),
)
    requires
        0 <= group < regex.len(),
    ensures
        ({
            let after = regex.update(group, regex[group].insert(input, result));
            &&& is_known(after, (group, input))
            &&& results_of(after, group)[input] == result
            &&& is_known(regex, pair) ==> is_known(after, pair)
            &&& pair != (group, input) ==> is_known(after, pair) == is_known(regex, pair)
            &&& pair != (group, input) && is_known(regex, pair) ==> results_of(
                after,
                pair.0,
            )[pair.1] == results_of(regex, pair.0)[pair.1]
        }),
{
}

/// The known results of all group expressions are counted, each once.
pub proof fn law_results_counted(
    regex: Seq<Map<Seq<char>, String>>,
    results: Map<Seq<char>, String>,
)
    ensures
        result_count(Seq::empty()) == 0,
        result_count(regex.push(results)) == result_count(regex) + results.dom().len(),
{
    assert(regex.push(results).drop_last() =~= regex);
}

/// No call is made that no request asks for.
pub proof fn law_only_requested_calls(
    regex: Seq<Map<Seq<char>, String>>,
    requests: Seq<(int, Seq<char>)>,
    i: int,
)
    requires
        0 <= i < fresh_calls(regex, requests).len(),
    ensures
        requests.contains(fresh_calls(regex, requests)[i]),
    decreases requests.len(),
{
    let front = requests.drop_last();
    let earlier = fresh_calls(regex, front);
    if i < earlier.len() {
        law_only_requested_calls(regex, front, i);
        let k = front.index_of(earlier[i]);
        assert(requests[k] == earlier[i]);
    } else {
        assert(requests[requests.len() - 1] == requests.last());
    }
}

} // verus!
