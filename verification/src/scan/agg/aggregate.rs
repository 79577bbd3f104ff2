//! Aggregating the rows of segments into groups.

use crate::scan::agg::accumulator::{
    type_of_values, AccModel, AggAccumulator, AggExecSpec, AggExpr, AggType, Deferred,
    DeferredModel, RowModel, MAX_ROWS,
};
use crate::scan::agg::finalize::{finalize_accumulator, FinalValue};
use crate::scan::agg::group::{GroupTable, KeyPart};
use crate::scan::agg::plan::{GroupByColSpec, GroupByExpr};
use crate::scan::agg::ready::{is_ready, keys_fit};
use crate::scan::agg::regex::RegexCache;
use crate::scan::agg::result::group_value;
use crate::scan::agg::segment::{row_key, row_value, SegmentColumns};
use crate::scan::datum::{datum_to_i128, is_float_type, Datum};
use vstd::prelude::*;

verus! {

/// The groups with the states of their aggregates, one group after the other; the operations left
/// to the executor; and the number of rows taken in.
pub struct AggState {
    pub keys: Seq<Seq<KeyPart>>,
    pub accs: Seq<AccModel>,
    pub ops: Seq<DeferredModel>,
    pub rows: nat,
}

/// The states of all aggregates before any row.
pub open spec fn fresh_accs(specs: Seq<AggExecSpec>) -> Seq<AccModel> {
    specs.map_values(
        |s: AggExecSpec|
            crate::scan::agg::accumulator::initial(
                s.agg_type,
                crate::scan::agg::accumulator::value_type(s),
            ),
    )
}

/// The state before any row: no group, or, without group expressions, a single one.
pub open spec fn start(specs: Seq<AggExecSpec>, grouped: bool) -> AggState {
    AggState {
        keys: if grouped {
            Seq::empty()
        } else {
            seq![Seq::empty()]
        },
        accs: if grouped {
            Seq::empty()
        } else {
            fresh_accs(specs)
        },
        ops: Seq::empty(),
        rows: 0,
    }
}

/// The number of the group with a key; that of a new group if there is none.
pub open spec fn group_of(keys: Seq<Seq<KeyPart>>, key: Seq<KeyPart>) -> int {
    if keys.contains(key) {
        keys.index_of(key)
    } else {
        keys.len() as int
    }
}

/// The state with a group for the key.
pub open spec fn with_group(
    st: AggState,
    specs: Seq<AggExecSpec>,
    key: Seq<KeyPart>,
) -> AggState {
    if st.keys.contains(key) {
        st
    } else {
        AggState { keys: st.keys.push(key), accs: st.accs + fresh_accs(specs), ..st }
    }
}

/// The states of all aggregates after the first `n` aggregates of the group that starts at `base`
/// have taken in their values.
pub open spec fn stepped_accs(
    accs: Seq<AccModel>,
    base: int,
    specs: Seq<AggExecSpec>,
    values: Seq<RowModel>,
    n: nat,
) -> Seq<AccModel> {
    Seq::new(
        accs.len(),
        |i: int|
            if base <= i < base + n {
                crate::scan::agg::accumulator::stepped(accs[i], specs[i - base], values[i - base])
            } else {
                accs[i]
            },
    )
}

/// What the first `n` aggregates of the group that starts at `base` leave to the executor.
pub open spec fn stepped_ops(
    accs: Seq<AccModel>,
    base: int,
    specs: Seq<AggExecSpec>,
    values: Seq<RowModel>,
    n: nat,
) -> Seq<DeferredModel>
    decreases n,
{
    if n == 0 {
        Seq::empty()
    } else {
        let j = n - 1;
        stepped_ops(accs, base, specs, values, j as nat)
            + crate::scan::agg::accumulator::step_deferred(
            accs[base + j],
            base + j,
            specs[j],
            values[j],
        )
    }
}

/// The state after a row with this key and these values.
pub open spec fn after_row(
    st: AggState,
    specs: Seq<AggExecSpec>,
    key: Seq<KeyPart>,
    values: Seq<RowModel>,
) -> AggState {
    let wide = with_group(st, specs, key);
    let base = group_of(st.keys, key) * specs.len();
    AggState {
        keys: wide.keys,
        accs: stepped_accs(wide.accs, base, specs, values, specs.len()),
        ops: st.ops + stepped_ops(wide.accs, base, specs, values, specs.len()),
        rows: st.rows + 1,
    }
}

/// A segment with what is read of it: the aggregates, the group expressions, which columns are
/// raw strings, the known results of each group expression's `regexp_replace`, and which rows are
/// selected (all, if the selection is empty).
pub struct Source {
    pub specs: Seq<AggExecSpec>,
    pub groups: Seq<GroupByColSpec>,
    pub raw_cols: Seq<bool>,
    pub regex: Seq<Map<Seq<char>, String>>,
    pub seg: SegmentColumns,
    pub selection: Seq<bool>,
}

/// Whether a row is selected.
pub open spec fn selected(selection: Seq<bool>, row: int) -> bool {
    selection.len() == 0 || selection[row]
}

/// What a row offers to all aggregates.
pub open spec fn values_at(src: Source, row: int) -> Seq<RowModel> {
    src.specs.map_values(
        |s: AggExecSpec| crate::scan::agg::segment::value_at(src.seg, src.raw_cols, s, row),
    )
}

/// The group key of a row.
pub open spec fn source_key(src: Source, row: int) -> Seq<KeyPart> {
    crate::scan::agg::segment::key_at(src.seg, src.groups, src.regex, row)
}

/// The state after the first `n` rows of a segment.
pub open spec fn after_rows(st: AggState, src: Source, n: nat) -> AggState
    decreases n,
{
    if n == 0 {
        st
    } else {
        let before = after_rows(st, src, (n - 1) as nat);
        if selected(src.selection, n - 1) {
            after_row(before, src.specs, source_key(src, n - 1), values_at(src, n - 1))
        } else {
            before
        }
    }
}

/// Whether the segment holds all that is read of a row.
pub open spec fn row_ok(src: Source, row: int) -> bool {
    &&& crate::scan::agg::segment::keys_ok(src.seg, src.groups, src.regex, row)
    &&& forall|i: int|
        0 <= i < src.specs.len() ==> crate::scan::agg::segment::value_ok(
            src.seg,
            src.raw_cols,
            #[trigger] src.specs[i],
            row,
        )
}

/// Whether the segment holds all that is read of its selected rows.
pub open spec fn source_ok(src: Source) -> bool {
    &&& src.selection.len() == 0 || src.seg.row_count <= src.selection.len()
    &&& forall|row: int|
        0 <= row < src.seg.row_count && selected(src.selection, row) ==> #[trigger] row_ok(src, row)
}

/// Whether the groups can be numbered, and their strings addressed, with 32 bits.
pub open spec fn groups_fit(keys: Seq<Seq<KeyPart>>) -> bool {
    &&& keys.len() <= u32::MAX
    &&& crate::scan::agg::group::keys_bytes(keys) <= u32::MAX
}

/// Groups are only added.
pub proof fn lemma_keys_grow(st: AggState, src: Source, k: nat, n: nat)
    requires
        k <= n,
    ensures
        after_rows(st, src, k).keys.is_prefix_of(after_rows(st, src, n).keys),
        after_rows(st, src, k).keys.len() <= after_rows(st, src, n).keys.len(),
        crate::scan::agg::group::keys_bytes(after_rows(st, src, k).keys)
            <= crate::scan::agg::group::keys_bytes(after_rows(st, src, n).keys),
    decreases n,
{
    if k < n {
        lemma_keys_grow(st, src, k, (n - 1) as nat);
        let before = after_rows(st, src, (n - 1) as nat).keys;
        let after = after_rows(st, src, n).keys;
        if after != before {
            assert(after.drop_last() =~= before);
        }
    }
}

/// The accumulators as mathematical values.
pub open spec fn acc_views(accs: Seq<AggAccumulator>) -> Seq<AccModel> {
    accs.map_values(|a: AggAccumulator| a@)
}

/// An aggregation in progress.
pub struct Aggregation {
    specs: Vec<AggExecSpec>,
    groups: Vec<GroupByColSpec>,
    raw_cols: Vec<bool>,
    prototypes: Vec<AggAccumulator>,
    table: GroupTable,
    accs: Vec<AggAccumulator>,
    rows: u64,
}

impl Aggregation {
    /// The aggregates.
    pub closed spec fn specs(&self) -> Seq<AggExecSpec> {
        self.specs@
    }

    /// The group expressions.
    pub closed spec fn groups(&self) -> Seq<GroupByColSpec> {
        self.groups@
    }

    /// Which columns are raw strings.
    pub closed spec fn raw_cols(&self) -> Seq<bool> {
        self.raw_cols@
    }

    /// The state, with no operations left to the executor.
    pub closed spec fn state(&self) -> AggState {
        AggState {
            keys: if self.groups@.len() > 0 {
                self.table@
            } else {
                seq![Seq::empty()]
            },
            accs: acc_views(self.accs@),
            ops: Seq::empty(),
            rows: self.rows as nat,
        }
    }

    /// The state, with the operations left to the executor.
    pub open spec fn state_with(&self, ops: Seq<Deferred>) -> AggState {
        AggState { ops: crate::scan::agg::accumulator::deferred_views(ops), ..self.state() }
    }

    /// What is read of a segment.
    pub open spec fn source(
        &self,
        seg: SegmentColumns,
        regex: Seq<Map<Seq<char>, String>>,
        selection: Seq<bool>,
    ) -> Source {
        Source {
            specs: self.specs(),
            groups: self.groups(),
            raw_cols: self.raw_cols(),
            regex,
            seg,
            selection,
        }
    }

    /// Each group has a state for each aggregate; states are within the rows taken in.
    pub closed spec fn wf(&self) -> bool {
        &&& self.table.wf()
        &&& acc_views(self.prototypes@) == fresh_accs(self.specs@)
        &&& self.groups@.len() == 0 ==> self.table@.len() == 0
        &&& self.groups@.len() > 0 ==> self.specs@.len() > 0
        &&& forall|i: int|
            0 <= i < self.table@.len() ==> (#[trigger] self.table@[i]).len() == self.groups@.len()
        &&& self.accs@.len() == self.state().keys.len() * self.specs@.len()
        &&& self.rows <= MAX_ROWS
        &&& forall|i: int|
            0 <= i < self.accs@.len() ==> crate::scan::agg::accumulator::within(
                (#[trigger] self.accs@[i])@,
                self.rows as nat,
            )
    }

    /// An aggregation before any row. A query with group expressions has at least one aggregate.
    pub fn new(specs: Vec<AggExecSpec>, groups: Vec<GroupByColSpec>, raw_cols: Vec<bool>) -> (a: Self)
        requires
            groups@.len() > 0 ==> specs@.len() > 0,
        ensures
            a.wf(),
            a.specs() == specs@,
            a.groups() == groups@,
            a.raw_cols() == raw_cols@,
            a.state() == start(specs@, groups@.len() > 0),
    {
        let prototypes = make_prototypes(&specs);
        let mut accs: Vec<AggAccumulator> = Vec::new();
        if groups.is_empty() {
            append_fresh(&mut accs, &prototypes, Ghost(specs@));
            assert(acc_views(accs@) =~= fresh_accs(specs@));
        } else {
            assert(acc_views(accs@) =~= Seq::<AccModel>::empty());
        }
        let a = Aggregation {
            specs,
            groups,
            raw_cols,
            prototypes,
            table: GroupTable::new(),
            accs,
            rows: 0,
        };
        proof {
            if groups@.len() == 0 {
                assert(a.state().keys.len() * specs@.len() == specs@.len()) by (nonlinear_arith)
                    requires
                        a.state().keys.len() == 1,
                ;
            } else {
                assert(a.state().keys.len() * specs@.len() == 0) by (nonlinear_arith)
                    requires
                        a.state().keys.len() == 0,
                ;
            }
        }
        a
    }

    /// The number of rows taken in.
    pub fn rows(&self) -> (n: u64)
        ensures
            n == self.state().rows,
    {
        self.rows
    }

    /// The number of groups.
    pub fn group_count(&self) -> (n: usize)
        requires
            self.wf(),
        ensures
            n == self.state().keys.len(),
    {
        if self.groups.is_empty() {
            1
        } else {
            self.table.len()
        }
    }
}

/// An empty accumulator for each aggregate.
fn make_prototypes(specs: &Vec<AggExecSpec>) -> (accs: Vec<AggAccumulator>)
    ensures
        acc_views(accs@) == fresh_accs(specs@),
{
    let mut accs: Vec<AggAccumulator> = Vec::new();
    let mut j: usize = 0;
    while j < specs.len()
        invariant
            j <= specs@.len(),
            accs@.len() == j,
            forall|i: int| 0 <= i < j ==> (#[trigger] accs@[i])@ == fresh_accs(specs@)[i],
        decreases specs@.len() - j,
    {
        let acc = AggAccumulator::new_for(specs[j].agg_type, type_of_values(&specs[j]));
        accs.push(acc);
        j = j + 1;
    }
    assert(acc_views(accs@) =~= fresh_accs(specs@));
    accs
}

/// Appends a fresh copy of each prototype.
fn append_fresh(
    accs: &mut Vec<AggAccumulator>,
    prototypes: &Vec<AggAccumulator>,
    Ghost(specs): Ghost<Seq<AggExecSpec>>,
)
    requires
        acc_views(prototypes@) == fresh_accs(specs),
    ensures
        acc_views(final(accs)@) == acc_views(old(accs)@) + fresh_accs(specs),
        final(accs)@.len() == old(accs)@.len() + specs.len(),
        forall|i: int| 0 <= i < old(accs)@.len() ==> final(accs)@[i] == old(accs)@[i],
        forall|i: int|
            old(accs)@.len() <= i < final(accs)@.len() ==> crate::scan::agg::accumulator::within(
                (#[trigger] final(accs)@[i])@,
                0,
            ),
{
    let ghost before = accs@;
    let mut j: usize = 0;
    assert(prototypes@.len() == acc_views(prototypes@).len());
    while j < prototypes.len()
        invariant
            j <= prototypes@.len(),
            prototypes@.len() == specs.len(),
            acc_views(prototypes@) == fresh_accs(specs),
            accs@.len() == before.len() + j,
            forall|i: int| 0 <= i < before.len() ==> accs@[i] == before[i],
            forall|i: int|
                before.len() <= i < accs@.len() ==> (#[trigger] accs@[i])@ == fresh_accs(specs)[i
                    - before.len()],
            forall|i: int|
                before.len() <= i < accs@.len() ==> crate::scan::agg::accumulator::within(
                    (#[trigger] accs@[i])@,
                    0,
                ),
        decreases prototypes@.len() - j,
    {
        assert(acc_views(prototypes@)[j as int] == prototypes@[j as int]@);
        let acc = prototypes[j].clone_fresh();
        accs.push(acc);
        j = j + 1;
    }
    assert(acc_views(accs@) =~= acc_views(before) + fresh_accs(specs));
}

/// The values of a row as the aggregates of a group take them in, one after the other.
proof fn lemma_stepped_next(
    accs: Seq<AccModel>,
    base: int,
    specs: Seq<AggExecSpec>,
    values: Seq<RowModel>,
    j: int,
)
    requires
        0 <= base,
        0 <= j < specs.len(),
        base + specs.len() <= accs.len(),
    ensures
        stepped_accs(accs, base, specs, values, (j + 1) as nat) == stepped_accs(
            accs,
            base,
            specs,
            values,
            j as nat,
        ).update(
            base + j,
            crate::scan::agg::accumulator::stepped(accs[base + j], specs[j], values[j]),
        ),
        stepped_accs(accs, base, specs, values, j as nat)[base + j] == accs[base + j],
{
    assert(stepped_accs(accs, base, specs, values, (j + 1) as nat) =~= stepped_accs(
        accs,
        base,
        specs,
        values,
        j as nat,
    ).update(
        base + j,
        crate::scan::agg::accumulator::stepped(accs[base + j], specs[j], values[j]),
    ));
}

impl Aggregation {
    /// Finds or makes the group of a row; returns its number.
    fn group_for(&mut self, seg: &SegmentColumns, regex: &RegexCache, row: usize) -> (g:
        usize)
        requires
            old(self).wf(),
            crate::scan::agg::segment::keys_ok(*seg, old(self).groups(), regex@, row as int),
            groups_fit(
                with_group(
                    old(self).state(),
                    old(self).specs(),
                    crate::scan::agg::segment::key_at(
                        *seg,
                        old(self).groups(),
                        regex@,
                        row as int,
                    ),
                ).keys,
            ),
        ensures
            final(self).wf(),
            final(self).specs() == old(self).specs(),
            final(self).groups() == old(self).groups(),
            final(self).raw_cols() == old(self).raw_cols(),
            final(self).state() == with_group(
                old(self).state(),
                old(self).specs(),
                crate::scan::agg::segment::key_at(*seg, old(self).groups(), regex@, row as int),
            ),
            g == group_of(
                old(self).state().keys,
                crate::scan::agg::segment::key_at(*seg, old(self).groups(), regex@, row as int),
            ),
            g < final(self).state().keys.len(),
    {
        let ghost st = self.state();
        let ghost key = crate::scan::agg::segment::key_at(*seg, self.groups@, regex@, row as int);
        let ghost n = self.specs@.len();
        if self.groups.is_empty() {
            proof {
                assert(key =~= Seq::<KeyPart>::empty());
                assert(st.keys[0] == key);
                assert(st.keys.contains(key));
                assert(st.keys.index_of(key) == 0);
            }
            return 0;
        }
        let borrowed = row_key(seg, &self.groups, regex, row);
        let before: usize = self.table.len();
        proof {
            if !st.keys.contains(key) {
                assert(st.keys.push(key).drop_last() =~= st.keys);
            }
        }
        let g: usize = self.table.find_or_insert(borrowed.as_slice());
        proof {
            if st.keys.contains(key) {
                let k = st.keys.index_of(key);
                assert(st.keys[k] == key && st.keys[g as int] == key);
                lemma_no_dup(old(self).table, k, g as int);
            } else if g < before {
                assert(st.keys[g as int] == key);
                assert(st.keys.contains(key));
            }
        }
        if g == before {
            append_fresh(&mut self.accs, &self.prototypes, Ghost(self.specs@));
            proof {
                assert((st.keys.len() + 1) * n == st.keys.len() * n + n) by (nonlinear_arith);
                assert forall|i: int| 0 <= i < self.accs@.len() implies
                    crate::scan::agg::accumulator::within(
                    (#[trigger] self.accs@[i])@,
                    self.rows as nat,
                ) by {
                    if i >= old(self).accs@.len() {
                        crate::scan::agg::accumulator::lemma_within_mono(
                            self.accs@[i]@,
                            0,
                            self.rows as nat,
                        );
                    }
                }
            }
        }
        g
    }
}

/// No two groups have the same key.
proof fn lemma_no_dup(table: GroupTable, i: int, j: int)
    requires
        table.wf(),
        0 <= i < table@.len(),
        0 <= j < table@.len(),
        table@[i] == table@[j],
    ensures
        i == j,
{
    table.lemma_keys_distinct();
}

impl Aggregation {
    /// Lets the aggregates of a group take in a row.
    fn step_group(
        &mut self,
        g: usize,
        seg: &SegmentColumns,
        row: usize,
        deferred: &mut Vec<Deferred>,
    )
        requires
            old(self).wf(),
            old(self).state().rows < MAX_ROWS,
            g < old(self).state().keys.len(),
            forall|i: int|
                0 <= i < old(self).specs().len() ==> crate::scan::agg::segment::value_ok(
                    *seg,
                    old(self).raw_cols(),
                    #[trigger] old(self).specs()[i],
                    row as int,
                ),
        ensures
            final(self).wf(),
            final(self).specs() == old(self).specs(),
            final(self).groups() == old(self).groups(),
            final(self).raw_cols() == old(self).raw_cols(),
            ({
                let st = old(self).state_with(old(deferred)@);
                let n = old(self).specs().len();
                let base = g * n;
                let values = old(self).specs().map_values(
                    |s: AggExecSpec|
                        crate::scan::agg::segment::value_at(
                            *seg,
                            old(self).raw_cols(),
                            s,
                            row as int,
                        ),
                );
                final(self).state_with(final(deferred)@) == AggState {
                    keys: st.keys,
                    accs: stepped_accs(st.accs, base, old(self).specs(), values, n),
                    ops: st.ops + stepped_ops(st.accs, base, old(self).specs(), values, n),
                    rows: st.rows + 1,
                }
            }),
    {
        let ghost st = self.state_with(deferred@);
        let ghost specs = self.specs@;
        let ghost values = specs.map_values(
            |s: AggExecSpec|
                crate::scan::agg::segment::value_at(*seg, self.raw_cols@, s, row as int),
        );
        let n: usize = self.specs.len();
        proof {
            assert((g + 1) * n <= st.keys.len() * n) by (nonlinear_arith)
                requires
                    g + 1 <= st.keys.len(),
            ;
            assert((g + 1) * n == g * n + n) by (nonlinear_arith);
            assert(0 <= g * n) by (nonlinear_arith);
        }
        let end: usize = self.accs.len();
        assert(g * n <= end);
        let base: usize = g * n;
        let mut j: usize = 0;
        proof {
            assert(stepped_accs(st.accs, base as int, specs, values, 0) =~= st.accs);
            assert(st.ops + stepped_ops(st.accs, base as int, specs, values, 0) =~= st.ops);
        }
        while j < n
            invariant
                j <= n,
                n == specs.len(),
                end == self.accs@.len(),
                base + n <= end,
                st.accs.len() == end,
                specs == self.specs@,
                self.specs@ == old(self).specs@,
                self.groups@ == old(self).groups@,
                self.raw_cols@ == old(self).raw_cols@,
                self.prototypes@ == old(self).prototypes@,
                self.table == old(self).table,
                self.rows == old(self).rows,
                self.rows < MAX_ROWS,
                values == specs.map_values(
                    |s: AggExecSpec|
                        crate::scan::agg::segment::value_at(*seg, self.raw_cols@, s, row as int),
                ),
                forall|i: int|
                    0 <= i < specs.len() ==> crate::scan::agg::segment::value_ok(
                        *seg,
                        self.raw_cols@,
                        #[trigger] specs[i],
                        row as int,
                    ),
                acc_views(self.accs@) == stepped_accs(st.accs, base as int, specs, values, j as nat),
                crate::scan::agg::accumulator::deferred_views(deferred@) == st.ops + stepped_ops(
                    st.accs,
                    base as int,
                    specs,
                    values,
                    j as nat,
                ),
                forall|i: int|
                    0 <= i < self.accs@.len() ==> crate::scan::agg::accumulator::within(
                        (#[trigger] self.accs@[i])@,
                        if base <= i < base + j {
                            self.rows as nat + 1
                        } else {
                            self.rows as nat
                        },
                    ),
            decreases n - j,
        {
            let ghost accs0 = self.accs@;
            let ghost ops0 = crate::scan::agg::accumulator::deferred_views(deferred@);
            proof {
                lemma_stepped_next(st.accs, base as int, specs, values, j as int);
                assert(acc_views(self.accs@)[base + j] == self.accs@[base + j]@);
                assert(crate::scan::agg::segment::value_ok(
                    *seg,
                    self.raw_cols@,
                    specs[j as int],
                    row as int,
                ));
            }
            let spec: AggExecSpec = self.specs[j];
            let value = row_value(seg, &self.raw_cols, &spec, row);
            let rows: Ghost<nat> = Ghost(self.rows as nat);
            self.accs[base + j].step(base + j, &spec, value, rows, deferred);
            proof {
                assert(self.accs@ =~= accs0.update(base + j, self.accs@[base + j]));
                assert(acc_views(self.accs@) =~= acc_views(accs0).update(
                    base + j,
                    self.accs@[base + j]@,
                ));
                assert(crate::scan::agg::accumulator::deferred_views(deferred@) =~= st.ops
                    + stepped_ops(st.accs, base as int, specs, values, (j + 1) as nat));
            }
            j = j + 1;
        }
        self.rows = self.rows + 1;
        proof {
            assert forall|i: int| 0 <= i < self.accs@.len() implies
                crate::scan::agg::accumulator::within(
                (#[trigger] self.accs@[i])@,
                self.rows as nat,
            ) by {
                if !(base <= i < base + n) {
                    crate::scan::agg::accumulator::lemma_within_mono(
                        self.accs@[i]@,
                        (self.rows - 1) as nat,
                        self.rows as nat,
                    );
                }
            }
        }
    }

    /// Takes in the selected rows of a segment, one after the other.
    fn aggregate_rows(
        &mut self,
        seg: &SegmentColumns,
        regex: &RegexCache,
        selection: &[bool],
        deferred: &mut Vec<Deferred>,
    )
        requires
            old(self).wf(),
            source_ok(old(self).source(*seg, regex@, selection@)),
            old(self).state().rows + seg.row_count <= MAX_ROWS,
            groups_fit(
                after_rows(
                    old(self).state_with(old(deferred)@),
                    old(self).source(*seg, regex@, selection@),
                    seg.row_count as nat,
                ).keys,
            ),
        ensures
            final(self).wf(),
            final(self).specs() == old(self).specs(),
            final(self).groups() == old(self).groups(),
            final(self).raw_cols() == old(self).raw_cols(),
            final(self).state_with(final(deferred)@) == after_rows(
                old(self).state_with(old(deferred)@),
                old(self).source(*seg, regex@, selection@),
                seg.row_count as nat,
            ),
    {
        let ghost st = self.state_with(deferred@);
        let ghost src = self.source(*seg, regex@, selection@);
        let count: usize = seg.row_count;
        let mut row: usize = 0;
        while row < count
            invariant
                row <= count,
                count == seg.row_count,
                src == self.source(*seg, regex@, selection@),
                self.wf(),
                self.specs() == old(self).specs(),
                self.groups() == old(self).groups(),
                self.raw_cols() == old(self).raw_cols(),
                source_ok(src),
                st.rows + count <= MAX_ROWS,
                groups_fit(after_rows(st, src, count as nat).keys),
                self.state_with(deferred@) == after_rows(st, src, row as nat),
                self.state().rows <= st.rows + row,
            decreases count - row,
        {
            let ghost before = self.state_with(deferred@);
            proof {
                lemma_keys_grow(st, src, (row + 1) as nat, count as nat);
            }
            if selection.is_empty() || selection[row] {
                assert(row_ok(src, row as int));
                let ghost key = source_key(src, row as int);
                proof {
                    assert(with_group(before, src.specs, key).keys == after_rows(
                        st,
                        src,
                        (row + 1) as nat,
                    ).keys);
                }
                let g: usize = self.group_for(seg, regex, row);
                assert(self.state_with(deferred@) == with_group(before, src.specs, key));
                self.step_group(g, seg, row, deferred);
            }
            row = row + 1;
        }
    }
}

// ---------------------------------------------------------------------------
// Many sums of one column
// ---------------------------------------------------------------------------

/// Whether an aggregate is a sum or an average of a column, with or without a constant.
pub open spec fn is_column_sum(spec: AggExecSpec) -> bool {
    &&& spec.agg_type == AggType::Sum || spec.agg_type == AggType::Avg
    &&& spec.expr_kind == AggExpr::Column || spec.expr_kind == AggExpr::AddConst
}

/// Whether several aggregates are all sums or averages of the same column.
pub open spec fn one_column_sums(specs: Seq<AggExecSpec>) -> bool {
    &&& specs.len() > 1
    &&& forall|i: int|
        0 <= i < specs.len() ==> (#[trigger] specs[i]).col_idx == specs[0].col_idx && is_column_sum(
            specs[i],
        )
}

/// Whether the sums of a segment are all derived from one: there are no groups, all aggregates
/// are sums or averages of the same column, and the segment has that column.
pub open spec fn shares_sum(src: Source) -> bool {
    &&& src.groups.len() == 0
    &&& one_column_sums(src.specs)
    &&& src.seg.cells@[src.specs[0].col_idx as int]@.len() > 0
}

/// Whether a row adds to the shared sum.
pub open spec fn adds(src: Source, row: int) -> bool {
    selected(src.selection, row) && !src.seg.cells@[src.specs[0].col_idx as int]@[row].1
}

/// The datum that a row adds.
pub open spec fn added(src: Source, row: int) -> Datum {
    src.seg.cells@[src.specs[0].col_idx as int]@[row].0
}

/// The sum of the column over the first `n` rows, as integers.
pub open spec fn base_sum(src: Source, n: nat) -> int
    decreases n,
{
    if n == 0 {
        0
    } else {
        base_sum(src, (n - 1) as nat) + if adds(src, n - 1) {
            crate::scan::datum::integer_value(added(src, n - 1).word, src.specs[0].col_type_oid)
        } else {
            0
        }
    }
}

/// The datums that the first `n` rows add.
pub open spec fn base_terms(src: Source, n: nat) -> Seq<Datum>
    decreases n,
{
    if n == 0 {
        Seq::empty()
    } else if adds(src, n - 1) {
        base_terms(src, (n - 1) as nat).push(added(src, n - 1))
    } else {
        base_terms(src, (n - 1) as nat)
    }
}

/// How many of the first `n` rows are selected.
pub open spec fn selected_count(selection: Seq<bool>, n: nat) -> nat
    decreases n,
{
    if n == 0 {
        0
    } else {
        selected_count(selection, (n - 1) as nat) + if selected(selection, n - 1) {
            1nat
        } else {
            0nat
        }
    }
}

/// The state of an aggregate after a shared sum and count: the sum and the product of the
/// aggregate's constant and the count are added.
pub open spec fn with_total(
    acc: AccModel,
    spec: AggExecSpec,
    float: bool,
    total: int,
    count: int,
) -> AccModel {
    match acc {
        AccModel::SumInt { sum, count: c } => if float {
            acc
        } else {
            AccModel::SumInt { sum: sum + total + spec.const_offset * count, count: c + count }
        },
        AccModel::SumFloat { bits, count: c } => if float {
            AccModel::SumFloat { bits, count: c + count }
        } else {
            acc
        },
        _ => acc,
    }
}

/// The floating-point sums among the first `n` aggregates, with their constants.
pub open spec fn float_targets(
    accs: Seq<AccModel>,
    specs: Seq<AggExecSpec>,
    n: nat,
) -> Seq<(usize, i64)>
    decreases n,
{
    if n == 0 {
        Seq::empty()
    } else {
        let rest = float_targets(accs, specs, (n - 1) as nat);
        if accs[n - 1] is SumFloat {
            rest.push(((n - 1) as usize, specs[n - 1].const_offset))
        } else {
            rest
        }
    }
}

/// The state after a segment whose sums are all derived from one.
pub open spec fn after_shared_sum(st: AggState, src: Source) -> AggState {
    let n = src.seg.row_count as nat;
    let float = crate::scan::datum::is_float_oid(src.specs[0].col_type_oid);
    let count = base_terms(src, n).len();
    AggState {
        keys: st.keys,
        accs: Seq::new(
            st.accs.len(),
            |i: int|
                with_total(st.accs[i], src.specs[i], float, base_sum(src, n), count as int),
        ),
        ops: if float {
            st.ops.push(
                DeferredModel::AddTotals {
                    terms: base_terms(src, n),
                    type_oid: src.specs[0].col_type_oid,
                    count: count as int,
                    targets: float_targets(st.accs, src.specs, src.specs.len()),
                },
            )
        } else {
            st.ops
        },
        rows: st.rows + selected_count(src.selection, n),
    }
}

/// The state after a segment.
pub open spec fn after_segment(st: AggState, src: Source) -> AggState {
    if shares_sum(src) {
        after_shared_sum(st, src)
    } else {
        after_rows(st, src, src.seg.row_count as nat)
    }
}

/// The largest magnitude of one term of an integer sum.
pub const MAX_INTEGER: i128 = 0x1_0000_0000_0000_0000;

/// Counts stay within the rows, and the shared sum within its terms.
proof fn lemma_base_bounds(src: Source, n: nat)
    ensures
        base_terms(src, n).len() <= selected_count(src.selection, n) <= n,
        -(base_terms(src, n).len() * MAX_INTEGER) <= base_sum(src, n) <= base_terms(src, n).len()
            * MAX_INTEGER,
    decreases n,
{
    if n > 0 {
        lemma_base_bounds(src, (n - 1) as nat);
        let k = base_terms(src, (n - 1) as nat).len();
        assert((k + 1) * MAX_INTEGER == k * MAX_INTEGER + MAX_INTEGER) by (nonlinear_arith);
    }
}

/// Adding a shared total keeps a state within the rows.
proof fn lemma_total_within(
    acc: AccModel,
    spec: AggExecSpec,
    float: bool,
    total: int,
    count: nat,
    rows: nat,
    more: nat,
)
    requires
        crate::scan::agg::accumulator::within(acc, rows),
        count <= more,
        -(count * MAX_INTEGER) <= total <= count * MAX_INTEGER,
    ensures
        crate::scan::agg::accumulator::within(
            with_total(acc, spec, float, total, count as int),
            rows + more,
        ),
{
    let max = crate::scan::agg::accumulator::MAX_TERM;
    assert((rows + more) * max == rows * max + more * max) by (nonlinear_arith);
    assert(count * MAX_INTEGER + count * 0x8000_0000_0000_0000 <= more * max) by (nonlinear_arith)
        requires
            count <= more,
            max == 0x2_0000_0000_0000_0000,
            MAX_INTEGER == 0x1_0000_0000_0000_0000,
    ;
    assert(-(count * 0x8000_0000_0000_0000) <= spec.const_offset * count <= count
        * 0x8000_0000_0000_0000) by (nonlinear_arith)
        requires
            -0x8000_0000_0000_0000 <= spec.const_offset < 0x8000_0000_0000_0000,
            count >= 0,
    ;
    crate::scan::agg::accumulator::lemma_within_mono(acc, rows, rows + more);
}

impl Aggregation {
    /// Whether all aggregates are sums or averages of the same column.
    fn sums_one_column(&self) -> (r: bool)
        ensures
            r == one_column_sums(self.specs()),
    {
        let n: usize = self.specs.len();
        if n <= 1 {
            return false;
        }
        let first: i32 = self.specs[0].col_idx;
        let mut i: usize = 0;
        while i < n
            invariant
                i <= n,
                n == self.specs@.len(),
                n > 1,
                first == self.specs@[0].col_idx,
                forall|k: int|
                    0 <= k < i ==> (#[trigger] self.specs@[k]).col_idx == first && is_column_sum(
                        self.specs@[k],
                    ),
            decreases n - i,
        {
            let s: AggExecSpec = self.specs[i];
            if !(s.col_idx == first && (s.agg_type == AggType::Sum || s.agg_type == AggType::Avg)
                && (s.expr_kind == AggExpr::Column || s.expr_kind == AggExpr::AddConst)) {
                assert(!is_column_sum(self.specs@[i as int]) || self.specs@[i as int].col_idx
                    != self.specs@[0].col_idx);
                return false;
            }
            i = i + 1;
        }
        true
    }

    /// Takes in a segment whose sums are all derived from one.
    fn aggregate_shared_sum(
        &mut self,
        seg: &SegmentColumns,
        Ghost(regex): Ghost<Seq<Map<Seq<char>, String>>>,
        selection: &[bool],
        deferred: &mut Vec<Deferred>,
    )
        requires
            old(self).wf(),
            old(self).source(*seg, regex, selection@).groups.len() == 0,
            source_ok(old(self).source(*seg, regex, selection@)),
            one_column_sums(old(self).specs()),
            0 <= old(self).specs()[0].col_idx < seg.cells@.len(),
            shares_sum(old(self).source(*seg, regex, selection@)),
            old(self).state().rows + seg.row_count <= MAX_ROWS,
        ensures
            final(self).wf(),
            final(self).specs() == old(self).specs(),
            final(self).groups() == old(self).groups(),
            final(self).raw_cols() == old(self).raw_cols(),
            final(self).state_with(final(deferred)@) == after_shared_sum(
                old(self).state_with(old(deferred)@),
                old(self).source(*seg, regex, selection@),
            ),
    {
        let ghost st = self.state_with(deferred@);
        let ghost src = self.source(*seg, regex, selection@);
        let col = &seg.cells[self.specs[0].col_idx as usize];
        let type_oid: u32 = self.specs[0].col_type_oid;
        let use_float: bool = is_float_type(type_oid);
        let count: usize = seg.row_count;
        let mut total: i128 = 0;
        let mut terms: Vec<Datum> = Vec::new();
        let mut non_null: u64 = 0;
        let mut taken: u64 = 0;
        let mut row: usize = 0;
        while row < count
            invariant
                row <= count,
                count == seg.row_count,
                count <= MAX_ROWS,
                src.seg == *seg,
                src.selection == selection@,
                src.specs == self.specs@,
                shares_sum(src),
                source_ok(src),
                0 <= src.specs[0].col_idx < seg.cells@.len(),
                col@ == seg.cells@[src.specs[0].col_idx as int]@,
                type_oid == src.specs[0].col_type_oid,
                use_float == crate::scan::datum::is_float_oid(type_oid),
                non_null == base_terms(src, row as nat).len(),
                taken == selected_count(src.selection, row as nat),
                use_float ==> terms@ == base_terms(src, row as nat),
                !use_float ==> total == base_sum(src, row as nat),
            decreases count - row,
        {
            proof {
                lemma_base_bounds(src, row as nat);
                let k = base_terms(src, row as nat).len();
                assert(k * MAX_INTEGER <= MAX_ROWS * MAX_INTEGER) by (nonlinear_arith)
                    requires
                        k <= MAX_ROWS,
                ;
            }
            if selection.is_empty() || selection[row] {
                proof {
                    assert(row_ok(src, row as int));
                    assert(crate::scan::agg::segment::value_ok(
                        src.seg,
                        src.raw_cols,
                        src.specs[0],
                        row as int,
                    ));
                }
                taken = taken + 1;
                if !col[row].1 {
                    if use_float {
                        terms.push(col[row].0);
                    } else {
                        total = total + datum_to_i128(col[row].0, type_oid);
                    }
                    non_null = non_null + 1;
                }
            }
            row = row + 1;
        }
        proof {
            lemma_base_bounds(src, count as nat);
        }
        let ghost n = count as nat;
        let nn: i64 = non_null as i64;
        let mut targets: Vec<(usize, i64)> = Vec::new();
        let slots: usize = self.specs.len();
        let mut i: usize = 0;
        proof {
            assert(st.keys.len() * src.specs.len() == src.specs.len()) by (nonlinear_arith)
                requires
                    st.keys.len() == 1,
            ;
        }
        while i < slots
            invariant
                i <= slots,
                slots == self.specs@.len(),
                slots == self.accs@.len(),
                st.accs.len() == slots,
                n == src.seg.row_count,
                src.specs == self.specs@,
                self.specs@ == old(self).specs@,
                self.groups@ == old(self).groups@,
                self.raw_cols@ == old(self).raw_cols@,
                self.prototypes@ == old(self).prototypes@,
                self.table == old(self).table,
                self.rows == old(self).rows,
                self.rows + taken <= MAX_ROWS,
                taken == selected_count(src.selection, n),
                nn == base_terms(src, n).len(),
                nn <= taken,
                use_float == crate::scan::datum::is_float_oid(src.specs[0].col_type_oid),
                !use_float ==> total == base_sum(src, n),
                -(nn * MAX_INTEGER) <= base_sum(src, n) <= nn * MAX_INTEGER,
                use_float ==> targets@ == float_targets(st.accs, src.specs, i as nat),
                forall|k: int|
                    0 <= k < slots ==> crate::scan::agg::accumulator::within(
                        #[trigger] st.accs[k],
                        self.rows as nat,
                    ),
                forall|k: int|
                    0 <= k < slots ==> (#[trigger] self.accs@[k])@ == if k < i {
                        with_total(
                            st.accs[k],
                            src.specs[k],
                            use_float,
                            base_sum(src, n),
                            nn as int,
                        )
                    } else {
                        st.accs[k]
                    },
            decreases slots - i,
        {
            let ghost accs0 = self.accs@;
            let offset: i64 = self.specs[i].const_offset;
            proof {
                assert(self.accs@[i as int]@ == st.accs[i as int]);
                lemma_total_within(
                    st.accs[i as int],
                    src.specs[i as int],
                    use_float,
                    base_sum(src, n),
                    nn as nat,
                    self.rows as nat,
                    taken as nat,
                );
                let rows = (self.rows + taken) as nat;
                let max = crate::scan::agg::accumulator::MAX_TERM;
                assert(rows * max <= MAX_ROWS * max) by (nonlinear_arith)
                    requires
                        rows <= MAX_ROWS,
                        max > 0,
                ;
                assert(-0x0800_0000_0000_0000_0000_0000_0000_0000 <= offset * nn
                    <= 0x0800_0000_0000_0000_0000_0000_0000_0000) by (nonlinear_arith)
                    requires
                        0 <= nn <= 0x1000_0000_0000_0000,
                        -0x8000_0000_0000_0000 <= offset < 0x8000_0000_0000_0000,
                ;
                assert(nn * MAX_INTEGER <= MAX_ROWS * MAX_INTEGER) by (nonlinear_arith)
                    requires
                        nn <= MAX_ROWS,
                ;
            }
            match &mut self.accs[i] {
                AggAccumulator::SumInt { sum, count } => {
                    if !use_float {
                        *sum = *sum + (total + offset as i128 * nn as i128);
                        *count = *count + nn;
                    }
                },
                AggAccumulator::SumFloat { count, .. } => {
                    if use_float {
                        targets.push((i, offset));
                        *count = *count + nn;
                    }
                },
                _ => {},
            }
            proof {
                assert(self.accs@ =~= accs0.update(i as int, self.accs@[i as int]));
            }
            i = i + 1;
        }
        self.rows = self.rows + taken;
        let ghost before = deferred@;
        if use_float {
            deferred.push(Deferred::AddTotals { terms, type_oid, count: nn, targets });
        }
        proof {
            let after = after_shared_sum(st, src);
            assert forall|k: int| 0 <= k < self.accs@.len() implies
                crate::scan::agg::accumulator::within(
                (#[trigger] self.accs@[k])@,
                self.rows as nat,
            ) by {
                lemma_total_within(
                    st.accs[k],
                    src.specs[k],
                    use_float,
                    base_sum(src, n),
                    nn as nat,
                    st.rows,
                    taken as nat,
                );
            }
            assert(acc_views(self.accs@) =~= after.accs);
            if use_float {
                assert(crate::scan::agg::accumulator::deferred_views(deferred@)
                    =~= crate::scan::agg::accumulator::deferred_views(before).push(
                    deferred@.last()@,
                ));
            }
            assert(self.state_with(deferred@).ops =~= after.ops);
        }
    }

    /// Whether the rows of a segment can be taken in: the segment holds all that is read of it,
    /// the rows can be counted, and the groups afterwards fit.
    pub open spec fn can_take(
        &self,
        seg: SegmentColumns,
        regex: Seq<Map<Seq<char>, String>>,
        selection: Seq<bool>,
    ) -> bool {
        let src = self.source(seg, regex, selection);
        &&& source_ok(src)
        &&& self.groups().len() == 0 && one_column_sums(self.specs()) ==> 0
            <= self.specs()[0].col_idx < seg.cells@.len()
        &&& self.state().rows + seg.row_count <= MAX_ROWS
        &&& groups_fit(after_segment(self.state(), src).keys)
    }

    /// Whether the rows of a segment can be taken in. If so, `aggregate_segment` takes them,
    /// whatever operations are left to the executor already.
    pub fn accepts(
        &self,
        seg: &SegmentColumns,
        regex: &RegexCache,
        selection: &[bool],
    ) -> (r: bool)
        requires
            self.wf(),
        ensures
            r == self.can_take(*seg, regex@, selection@),
            r ==> forall|ops: Seq<Deferred>|
                groups_fit(
                    after_segment(
                        #[trigger] self.state_with(ops),
                        self.source(*seg, regex@, selection@),
                    ).keys,
                ),
    {
        let ghost src = self.source(*seg, regex@, selection@);
        let ghost n = seg.row_count as nat;
        proof {
            crate::scan::agg::ready::lemma_keys_after(self.state(), src, n);
            assert forall|ops: Seq<Deferred>|
                after_segment(#[trigger] self.state_with(ops), src).keys == after_segment(
                    self.state(),
                    src,
                ).keys by {
                crate::scan::agg::ready::lemma_keys_after(self.state_with(ops), src, n);
            }
        }
        if !is_ready(&self.specs, &self.groups, &self.raw_cols, seg, regex, selection) {
            return false;
        }
        if self.groups.is_empty() && self.sums_one_column() && (self.specs[0].col_idx < 0
            || self.specs[0].col_idx as usize >= seg.cells.len()) {
            return false;
        }
        if seg.row_count as u64 > MAX_ROWS - self.rows {
            return false;
        }
        if self.groups.is_empty() {
            proof {
                crate::scan::agg::ready::lemma_single_group(src, n);
                assert(self.state().keys == seq![Seq::<KeyPart>::empty()]);
            }
            return true;
        }
        keys_fit(&self.table, &self.specs, &self.groups, &self.raw_cols, seg, regex, selection)
    }

    /// Takes in the selected rows of a segment. What is left to the executor is appended to
    /// `deferred`.
    pub fn aggregate_segment(
        &mut self,
        seg: &SegmentColumns,
        regex: &RegexCache,
        selection: &[bool],
        deferred: &mut Vec<Deferred>,
    )
        requires
            old(self).wf(),
            source_ok(old(self).source(*seg, regex@, selection@)),
            old(self).groups().len() == 0 && one_column_sums(old(self).specs()) ==> 0 <= old(
                self,
            ).specs()[0].col_idx < seg.cells@.len(),
            old(self).state().rows + seg.row_count <= MAX_ROWS,
            groups_fit(
                after_segment(
                    old(self).state_with(old(deferred)@),
                    old(self).source(*seg, regex@, selection@),
                ).keys,
            ),
        ensures
            final(self).wf(),
            final(self).specs() == old(self).specs(),
            final(self).groups() == old(self).groups(),
            final(self).raw_cols() == old(self).raw_cols(),
            final(self).state_with(final(deferred)@) == after_segment(
                old(self).state_with(old(deferred)@),
                old(self).source(*seg, regex@, selection@),
            ),
    {
        if self.groups.is_empty() && self.sums_one_column() {
            if !seg.cells[self.specs[0].col_idx as usize].is_empty() {
                self.aggregate_shared_sum(seg, Ghost(regex@), selection, deferred);
                return;
            }
        }
        self.aggregate_rows(seg, regex, selection, deferred);
    }
}

// ---------------------------------------------------------------------------
// What the executor hands back
// ---------------------------------------------------------------------------

/// The state of a floating-point extremum after it was offered a number. `beats` says whether the
/// number beats the present extremum; the first number becomes the extremum in any case.
pub open spec fn offered_float(acc: AccModel, bits: u64, beats: bool) -> AccModel {
    match acc {
        AccModel::MinFloat { bits: cur } => AccModel::MinFloat {
            bits: if cur is None || beats {
                Some(bits)
            } else {
                cur
            },
        },
        AccModel::MaxFloat { bits: cur } => AccModel::MaxFloat {
            bits: if cur is None || beats {
                Some(bits)
            } else {
                cur
            },
        },
        _ => acc,
    }
}

/// The state of a text extremum after it was offered a text. `collated` is how the text compares
/// with the present extremum: negative, zero or positive. The first text becomes the extremum in
/// any case.
pub open spec fn offered_text(acc: AccModel, text: Seq<char>, collated: i32) -> AccModel {
    match acc {
        AccModel::MinText { val } => AccModel::MinText {
            val: if val is None || collated < 0 {
                Some(text)
            } else {
                val
            },
        },
        AccModel::MaxText { val } => AccModel::MaxText {
            val: if val is None || collated > 0 {
                Some(text)
            } else {
                val
            },
        },
        _ => acc,
    }
}

/// Whether two states differ in the state of one aggregate only.
pub open spec fn only_slot(before: AggState, after: AggState, slot: int, acc: AccModel) -> bool {
    after == (AggState { accs: before.accs.update(slot, acc), ..before })
}

impl Aggregation {
    /// The bits of a floating-point sum; `None` for any other aggregate.
    pub fn float_sum(&self, slot: usize) -> (bits: Option<u64>)
        requires
            slot < self.state().accs.len(),
        ensures
            bits == match self.state().accs[slot as int] {
                AccModel::SumFloat { bits, .. } => Some(bits),
                _ => None,
            },
    {
        match &self.accs[slot] {
            AggAccumulator::SumFloat { bits, .. } => Some(*bits),
            _ => None,
        }
    }

    /// Replaces the bits of a floating-point sum.
    pub fn set_float_sum(&mut self, slot: usize, new_bits: u64)
        requires
            old(self).wf(),
            slot < old(self).state().accs.len(),
        ensures
            final(self).wf(),
            final(self).specs() == old(self).specs(),
            final(self).groups() == old(self).groups(),
            final(self).raw_cols() == old(self).raw_cols(),
            only_slot(
                old(self).state(),
                final(self).state(),
                slot as int,
                match old(self).state().accs[slot as int] {
                    AccModel::SumFloat { count, .. } => AccModel::SumFloat {
                        bits: new_bits,
                        count,
                    },
                    acc => acc,
                },
            ),
    {
        let ghost before = self.accs@;
        match &mut self.accs[slot] {
            AggAccumulator::SumFloat { bits, .. } => {
                *bits = new_bits;
            },
            _ => {},
        }
        proof {
            self.lemma_one_changed(old(self), before, slot as int);
        }
    }

    /// The bits of a floating-point extremum; `None` before the first number and for any other
    /// aggregate.
    pub fn float_extremum(&self, slot: usize) -> (r: Option<u64>)
        requires
            slot < self.state().accs.len(),
        ensures
            r == match self.state().accs[slot as int] {
                AccModel::MinFloat { bits } => bits,
                AccModel::MaxFloat { bits } => bits,
                _ => None,
            },
    {
        match &self.accs[slot] {
            AggAccumulator::MinFloat { bits } => *bits,
            AggAccumulator::MaxFloat { bits } => *bits,
            _ => None,
        }
    }

    /// Offers a number to a floating-point extremum; `beats` says whether it beats the present
    /// one.
    pub fn offer_float(&mut self, slot: usize, new_bits: u64, beats: bool)
        requires
            old(self).wf(),
            slot < old(self).state().accs.len(),
        ensures
            final(self).wf(),
            final(self).specs() == old(self).specs(),
            final(self).groups() == old(self).groups(),
            final(self).raw_cols() == old(self).raw_cols(),
            only_slot(
                old(self).state(),
                final(self).state(),
                slot as int,
                offered_float(old(self).state().accs[slot as int], new_bits, beats),
            ),
    {
        let ghost before = self.accs@;
        match &mut self.accs[slot] {
            AggAccumulator::MinFloat { bits } => {
                if bits.is_none() || beats {
                    *bits = Some(new_bits);
                }
            },
            AggAccumulator::MaxFloat { bits } => {
                if bits.is_none() || beats {
                    *bits = Some(new_bits);
                }
            },
            _ => {},
        }
        proof {
            self.lemma_one_changed(old(self), before, slot as int);
        }
    }

    /// The text of a text extremum; `None` before the first text and for any other aggregate.
    pub fn text_extremum(&self, slot: usize) -> (r: Option<&str>)
        requires
            slot < self.state().accs.len(),
        ensures
            crate::scan::text_col::opt_text(r) == match self.state().accs[slot as int] {
                AccModel::MinText { val } => val,
                AccModel::MaxText { val } => val,
                _ => None,
            },
    {
        match &self.accs[slot] {
            AggAccumulator::MinStr { val } => match val {
                Some(s) => Some(s.as_str()),
                None => None,
            },
            AggAccumulator::MaxStr { val } => match val {
                Some(s) => Some(s.as_str()),
                None => None,
            },
            _ => None,
        }
    }

    /// Offers a text to a text extremum; `collated` is how it compares with the present one.
    pub fn offer_text(&mut self, slot: usize, text: String, collated: i32)
        requires
            old(self).wf(),
            slot < old(self).state().accs.len(),
        ensures
            final(self).wf(),
            final(self).specs() == old(self).specs(),
            final(self).groups() == old(self).groups(),
            final(self).raw_cols() == old(self).raw_cols(),
            only_slot(
                old(self).state(),
                final(self).state(),
                slot as int,
                offered_text(old(self).state().accs[slot as int], text@, collated),
            ),
    {
        let ghost before = self.accs@;
        match &mut self.accs[slot] {
            AggAccumulator::MinStr { val } => {
                if val.is_none() || collated < 0 {
                    *val = Some(text);
                }
            },
            AggAccumulator::MaxStr { val } => {
                if val.is_none() || collated > 0 {
                    *val = Some(text);
                }
            },
            _ => {},
        }
        proof {
            self.lemma_one_changed(old(self), before, slot as int);
        }
    }

    /// A change of one accumulator that keeps its bounds keeps the aggregation well formed.
    proof fn lemma_one_changed(&self, before: &Self, accs: Seq<AggAccumulator>, slot: int)
        requires
            before.wf(),
            accs == before.accs@,
            0 <= slot < accs.len(),
            self.specs == before.specs,
            self.groups == before.groups,
            self.raw_cols == before.raw_cols,
            self.prototypes == before.prototypes,
            self.table == before.table,
            self.rows == before.rows,
            self.accs@ == accs.update(slot, self.accs@[slot]),
            crate::scan::agg::accumulator::within(self.accs@[slot]@, self.rows as nat),
        ensures
            self.wf(),
            self.specs() == before.specs(),
            self.groups() == before.groups(),
            self.raw_cols() == before.raw_cols(),
            only_slot(before.state(), self.state(), slot, self.accs@[slot]@),
            before.state().accs[slot] == before.accs@[slot]@,
    {
        assert(acc_views(self.accs@) =~= acc_views(accs).update(slot, self.accs@[slot]@));
        assert forall|i: int| 0 <= i < self.accs@.len() implies
            crate::scan::agg::accumulator::within(
            (#[trigger] self.accs@[i])@,
            self.rows as nat,
        ) by {
            if i != slot {
                assert(self.accs@[i] == accs[i]);
            }
        }
    }

    /// The results of the aggregates of a group.
    pub fn finalize_group(&self, g: usize) -> (results: Vec<FinalValue>)
        requires
            self.wf(),
            g < self.state().keys.len(),
        ensures
            results@.len() == self.specs().len(),
            forall|j: int|
                0 <= j < self.specs().len() ==> (#[trigger] results@[j])@
                    == crate::scan::agg::finalize::finalized(
                    self.state().accs[g * self.specs().len() + j],
                    self.specs()[j],
                ),
    {
        let n: usize = self.specs.len();
        let ghost st = self.state();
        proof {
            assert((g + 1) * n <= st.keys.len() * n) by (nonlinear_arith)
                requires
                    g + 1 <= st.keys.len(),
            ;
            assert((g + 1) * n == g * n + n) by (nonlinear_arith);
            assert(0 <= g * n) by (nonlinear_arith);
        }
        let end: usize = self.accs.len();
        assert(g * n <= end);
        let base: usize = g * n;
        let mut results: Vec<FinalValue> = Vec::new();
        let mut j: usize = 0;
        while j < n
            invariant
                j <= n,
                n == self.specs@.len(),
                base == g * n,
                base + n <= self.accs@.len(),
                end == self.accs@.len(),
                results@.len() == j,
                forall|k: int|
                    0 <= k < j ==> (#[trigger] results@[k])@
                        == crate::scan::agg::finalize::finalized(
                        self.state().accs[base + k],
                        self.specs()[k],
                    ),
            decreases n - j,
        {
            let r = finalize_accumulator(&self.accs[base + j], &self.specs[j]);
            results.push(r);
            j = j + 1;
        }
        results
    }

    /// The values of the group expressions of a group.
    pub fn group_values(&self, g: usize) -> (values: Vec<FinalValue>)
        requires
            self.wf(),
            self.groups().len() > 0,
            g < self.state().keys.len(),
        ensures
            values@.len() == self.groups().len(),
            forall|i: int|
                0 <= i < self.groups().len() ==> (#[trigger] values@[i])@
                    == crate::scan::agg::result::group_final(
                    self.state().keys[g as int][i],
                    self.groups()[i].expr is Extract,
                ),
    {
        let vals = self.table.key(g);
        let n: usize = self.groups.len();
        let mut values: Vec<FinalValue> = Vec::new();
        let mut i: usize = 0;
        proof {
            assert(self.table@[g as int].len() == self.groups@.len());
            assert(crate::scan::agg::group::val_parts(
                vals@,
                self.table.arena_bytes(),
            ).len() == vals@.len());
        }
        while i < n
            invariant
                i <= n,
                n == self.groups@.len(),
                vals@.len() == n,
                crate::scan::agg::group::vals_in(vals@, self.table.arena_bytes()),
                self.table@[g as int] == crate::scan::agg::group::val_parts(
                    vals@,
                    self.table.arena_bytes(),
                ),
                values@.len() == i,
                forall|k: int|
                    0 <= k < i ==> (#[trigger] values@[k])@
                        == crate::scan::agg::result::group_final(
                        self.table@[g as int][k],
                        self.groups@[k].expr is Extract,
                    ),
            decreases n - i,
        {
            let is_extract: bool = match &self.groups[i].expr {
                GroupByExpr::Extract { .. } => true,
                _ => false,
            };
            assert(crate::scan::agg::group::val_in(vals@[i as int], self.table.arena_bytes()));
            values.push(group_value(&self.table, &vals[i], is_extract));
            i = i + 1;
        }
        values
    }
}

} // verus!
