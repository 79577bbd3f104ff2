//! Null bitmaps: which rows of a column have no value.
//!
//! A column stores the values of its non-null rows only. Bit `i % 8` of byte `i / 8` of
//! the bitmap is set where row `i` is null; a column without nulls has an empty bitmap.

use crate::scan::datum::{Cell, Datum};
use vstd::prelude::*;

verus! {

/// Whether row `i` is null.
pub open spec fn null_at(bitmap: Seq<u8>, i: int) -> bool {
    bitmap.len() > 0 && (bitmap[i / 8] >> ((i % 8) as u8)) & 1 == 1
}

/// Whether the bitmap says of each of `rows` rows whether it is null.
pub open spec fn covers(bitmap: Seq<u8>, rows: nat) -> bool {
    bitmap.len() == 0 || rows <= 8 * bitmap.len()
}

/// How many of the first `rows` rows are not null.
pub open spec fn non_null(bitmap: Seq<u8>, rows: nat) -> nat
    decreases rows,
{
    if rows == 0 {
        0
    } else {
        non_null(bitmap, (rows - 1) as nat) + if null_at(bitmap, rows - 1) {
            0nat
        } else {
            1nat
        }
    }
}

/// The values of all rows, given those of the non-null ones in order and a filler for the
/// others.
pub open spec fn expanded<T>(values: Seq<T>, bitmap: Seq<u8>, rows: nat, filler: T) -> Seq<T> {
    if bitmap.len() == 0 {
        values
    } else {
        Seq::new(
            rows,
            |i: int|
                if null_at(bitmap, i) {
                    filler
                } else {
                    values[non_null(bitmap, i as nat) as int]
                },
        )
    }
}

/// The cells of all rows, given the datums of the non-null ones in order.
pub open spec fn expanded_cells(datums: Seq<Datum>, bitmap: Seq<u8>, rows: nat) -> Seq<Cell> {
    expanded(
        datums.map_values(|d: Datum| (d, false)),
        bitmap,
        rows,
        crate::scan::datum::null_cell(),
    )
}

/// Without a bitmap every row counts; with one, no more than all.
pub proof fn lemma_non_null_bounds(bitmap: Seq<u8>, rows: nat, k: nat)
    requires
        k <= rows,
    ensures
        non_null(bitmap, k) <= non_null(bitmap, rows) <= rows,
        rows - k >= non_null(bitmap, rows) - non_null(bitmap, k),
        bitmap.len() == 0 ==> non_null(bitmap, rows) == rows,
    decreases rows,
{
    if rows > k {
        lemma_non_null_bounds(bitmap, (rows - 1) as nat, k);
    } else if rows > 0 {
        lemma_non_null_bounds(bitmap, (rows - 1) as nat, (rows - 1) as nat);
    }
}

/// Whether row `i` is null, for a row that a non-empty bitmap covers.
pub fn is_null(bitmap: &[u8], i: usize) -> (r: bool)
    requires
        i < 8 * bitmap@.len(),
    ensures
        r == null_at(bitmap@, i as int),
{
    (bitmap[i / 8] >> ((i % 8) as u8)) & 1 == 1
}

/// How many of `total_count` rows are not null.
pub fn count_non_null(null_bitmap: &[u8], total_count: usize) -> (n: usize)
    requires
        covers(null_bitmap@, total_count as nat),
    ensures
        n == non_null(null_bitmap@, total_count as nat),
        n <= total_count,
{
    if null_bitmap.is_empty() {
        proof {
            lemma_non_null_bounds(null_bitmap@, total_count as nat, 0);
        }
        return total_count;
    }
    let mut n: usize = 0;
    let mut i: usize = 0;
    while i < total_count
        invariant
            i <= total_count,
            null_bitmap@.len() > 0,
            covers(null_bitmap@, total_count as nat),
            n == non_null(null_bitmap@, i as nat),
            n <= i,
        decreases total_count - i,
    {
        if !is_null(null_bitmap, i) {
            n = n + 1;
        }
        i = i + 1;
    }
    n
}

/// Spreads the values of the non-null rows over all rows, with `filler` where a row is null.
pub fn expand<T: Copy>(values: &[T], null_bitmap: &[u8], total_count: usize, filler: T) -> (all:
    Vec<T>)
    requires
        covers(null_bitmap@, total_count as nat),
        null_bitmap@.len() > 0 ==> non_null(null_bitmap@, total_count as nat) <= values@.len(),
    ensures
        all@ == expanded(values@, null_bitmap@, total_count as nat, filler),
{
    let mut all: Vec<T> = Vec::new();
    if null_bitmap.is_empty() {
        let mut i: usize = 0;
        while i < values.len()
            invariant
                i <= values@.len(),
                all@ == values@.take(i as int),
            decreases values@.len() - i,
        {
            all.push(values[i]);
            i = i + 1;
            assert(all@ =~= values@.take(i as int));
        }
        assert(all@ =~= values@);
        return all;
    }
    let mut val_idx: usize = 0;
    let mut i: usize = 0;
    while i < total_count
        invariant
            i <= total_count,
            null_bitmap@.len() > 0,
            covers(null_bitmap@, total_count as nat),
            non_null(null_bitmap@, total_count as nat) <= values@.len(),
            val_idx == non_null(null_bitmap@, i as nat),
            all@.len() == i,
            forall|k: int|
                0 <= k < i ==> all@[k] == expanded(
                    values@,
                    null_bitmap@,
                    total_count as nat,
                    filler,
                )[k],
        decreases total_count - i,
    {
        if is_null(null_bitmap, i) {
            all.push(filler);
        } else {
            proof {
                lemma_non_null_bounds(null_bitmap@, total_count as nat, (i + 1) as nat);
            }
            all.push(values[val_idx]);
            val_idx = val_idx + 1;
        }
        i = i + 1;
    }
    assert(all@ =~= expanded(values@, null_bitmap@, total_count as nat, filler));
    all
}

/// Reinserts nulls into the datums of the non-null rows.
pub fn reinsert_nulls_datum(datums: &[Datum], null_bitmap: &[u8], total_count: usize) -> (cells:
    Vec<Cell>)
    requires
        covers(null_bitmap@, total_count as nat),
        null_bitmap@.len() > 0 ==> non_null(null_bitmap@, total_count as nat) <= datums@.len(),
    ensures
        cells@ == expanded_cells(datums@, null_bitmap@, total_count as nat),
{
    let mut values: Vec<Cell> = Vec::new();
    let mut i: usize = 0;
    while i < datums.len()
        invariant
            i <= datums@.len(),
            values@ == datums@.map_values(|d: Datum| (d, false)).take(i as int),
        decreases datums@.len() - i,
    {
        values.push((datums[i], false));
        i = i + 1;
        assert(values@ =~= datums@.map_values(|d: Datum| (d, false)).take(i as int));
    }
    assert(values@ =~= datums@.map_values(|d: Datum| (d, false)));
    expand(values.as_slice(), null_bitmap, total_count, crate::scan::datum::new_null())
}

// ---------------------------------------------------------------------------
// Laws
// ---------------------------------------------------------------------------

/// The row that holds the value with number `k`: the one that is not null and has `k` non-null
/// rows before it.
pub open spec fn holds_value(bitmap: Seq<u8>, rows: nat, row: int, k: nat) -> bool {
    &&& 0 <= row < rows
    &&& !null_at(bitmap, row)
    &&& non_null(bitmap, row as nat) == k
}

/// Whether `value` is what the row of the value with number `k` holds.
pub open spec fn stands_in_a_row<T>(
    all: Seq<T>,
    bitmap: Seq<u8>,
    rows: nat,
    k: nat,
    value: T,
) -> bool {
    exists|row: int| #[trigger] holds_value(bitmap, rows, row, k) && all[row] == value
}

/// Every stored value stands in exactly one row, rows are in the order of the values, and a
/// null row holds the filler: nothing is lost, repeated or reordered.
pub proof fn law_expand_keeps_values<T>(
    values: Seq<T>,
    bitmap: Seq<u8>,
    rows: nat,
    filler: T,
)
    requires
        bitmap.len() > 0,
        covers(bitmap, rows),
        non_null(bitmap, rows) <= values.len(),
    ensures
        expanded(values, bitmap, rows, filler).len() == rows,
        forall|row: int|
            0 <= row < rows && null_at(bitmap, row) ==> #[trigger] expanded(
                values,
                bitmap,
                rows,
                filler,
            )[row] == filler,
        forall|k: int|
            0 <= k < non_null(bitmap, rows) ==> stands_in_a_row(
                expanded(values, bitmap, rows, filler),
                bitmap,
                rows,
                k as nat,
                #[trigger] values[k],
            ),
        forall|r1: int, r2: int, k1: nat, k2: nat|
            #[trigger] holds_value(bitmap, rows, r1, k1) && #[trigger] holds_value(
                bitmap,
                rows,
                r2,
                k2,
            ) ==> (r1 < r2 <==> k1 < k2),
{
    assert forall|k: int| 0 <= k < non_null(bitmap, rows) implies stands_in_a_row(
        expanded(values, bitmap, rows, filler),
        bitmap,
        rows,
        k as nat,
        #[trigger] values[k],
    ) by {
        let row = lemma_value_has_row(bitmap, rows, k as nat);
        assert(holds_value(bitmap, rows, row, k as nat));
    }
    assert forall|r1: int, r2: int, k1: nat, k2: nat|
        #[trigger] holds_value(bitmap, rows, r1, k1) && #[trigger] holds_value(
            bitmap,
            rows,
            r2,
            k2,
        ) implies (r1 < r2 <==> k1 < k2) by {
        if r1 < r2 {
            lemma_non_null_bounds(bitmap, r2 as nat, (r1 + 1) as nat);
        } else if r2 < r1 {
            lemma_non_null_bounds(bitmap, r1 as nat, (r2 + 1) as nat);
        }
    }
}

/// Finds the row of the value with number `k`.
proof fn lemma_value_has_row(bitmap: Seq<u8>, rows: nat, k: nat) -> (row: int)
    requires
        k < non_null(bitmap, rows),
    ensures
        holds_value(bitmap, rows, row, k),
    decreases rows,
{
    if k < non_null(bitmap, (rows - 1) as nat) {
        lemma_value_has_row(bitmap, (rows - 1) as nat, k)
    } else {
        rows - 1
    }
}

/// A column without nulls is its values.
pub proof fn law_no_nulls(datums: Seq<Datum>, rows: nat)
    ensures
        expanded_cells(datums, Seq::empty(), rows).len() == datums.len(),
        forall|i: int|
            0 <= i < datums.len() ==> #[trigger] expanded_cells(datums, Seq::empty(), rows)[i] == (
                datums[i],
                false,
            ),
        non_null(Seq::empty(), rows) == rows,
{
    lemma_non_null_bounds(Seq::empty(), rows, 0);
}

/// Eight rows take a byte of the bitmap, the first of them its lowest bit; without a bitmap no row
/// is null.
pub proof fn law_bitmap_layout(bitmap: Seq<u8>, byte: int, row: int)
    requires
        0 <= byte < bitmap.len(),
    ensures
        null_at(bitmap, 8 * byte) <==> bitmap[byte] as int % 2 == 1,
        null_at(bitmap, 8 * byte + 1) <==> bitmap[byte] as int / 2 % 2 == 1,
        null_at(bitmap, 8 * byte + 2) <==> bitmap[byte] as int / 4 % 2 == 1,
        null_at(bitmap, 8 * byte + 3) <==> bitmap[byte] as int / 8 % 2 == 1,
        null_at(bitmap, 8 * byte + 4) <==> bitmap[byte] as int / 16 % 2 == 1,
        null_at(bitmap, 8 * byte + 5) <==> bitmap[byte] as int / 32 % 2 == 1,
        null_at(bitmap, 8 * byte + 6) <==> bitmap[byte] as int / 64 % 2 == 1,
        null_at(bitmap, 8 * byte + 7) <==> bitmap[byte] as int / 128 % 2 == 1,
        !null_at(Seq::empty(), row),
{
    let b = bitmap[byte];
    assert((b >> 0u8) & 1 == b % 2 && (b >> 1u8) & 1 == (b / 2) % 2 && (b >> 2u8) & 1 == (b / 4) % 2
        && (b >> 3u8) & 1 == (b / 8) % 2) by (bit_vector);
    assert((b >> 4u8) & 1 == (b / 16) % 2 && (b >> 5u8) & 1 == (b / 32) % 2 && (b >> 6u8) & 1 == (b
        / 64) % 2 && (b >> 7u8) & 1 == (b / 128) % 2) by (bit_vector);
    assert((8 * byte) / 8 == byte && (8 * byte) % 8 == 0);
    assert((8 * byte + 1) / 8 == byte && (8 * byte + 1) % 8 == 1);
    assert((8 * byte + 2) / 8 == byte && (8 * byte + 2) % 8 == 2);
    assert((8 * byte + 3) / 8 == byte && (8 * byte + 3) % 8 == 3);
    assert((8 * byte + 4) / 8 == byte && (8 * byte + 4) % 8 == 4);
    assert((8 * byte + 5) / 8 == byte && (8 * byte + 5) % 8 == 5);
    assert((8 * byte + 6) / 8 == byte && (8 * byte + 6) % 8 == 6);
    assert((8 * byte + 7) / 8 == byte && (8 * byte + 7) % 8 == 7);
}

/// The rows that are not null are counted, each once.
pub proof fn law_non_null_counted(bitmap: Seq<u8>, rows: nat)
    ensures
        non_null(bitmap, rows) == Seq::new(rows, |i: int| i).filter(
            |i: int| !null_at(bitmap, i),
        ).len(),
    decreases rows,
{
    reveal(Seq::filter);
    if rows > 0 {
        law_non_null_counted(bitmap, (rows - 1) as nat);
        assert(Seq::new(rows, |i: int| i).drop_last() =~= Seq::new((rows - 1) as nat, |i: int| i));
    }
}

/// The cell of a null row is null, and that of any other row is its value and not null.
pub proof fn law_cells_of_rows(
    datums: Seq<Datum>,
    bitmap: Seq<u8>,
    rows: nat,
    row: int,
    k: nat,
)
    requires
        bitmap.len() > 0,
        0 <= row < rows,
        k < datums.len(),
    ensures
        expanded_cells(datums, bitmap, rows).len() == rows,
        null_at(bitmap, row) ==> expanded_cells(datums, bitmap, rows)[row].1,
        holds_value(bitmap, rows, row, k) ==> expanded_cells(datums, bitmap, rows)[row] == (
            datums[k as int],
            false,
        ),
{
}

} // verus!
