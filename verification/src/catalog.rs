//! What the catalog says of managed tables and their partitions.

use crate::partition::{IntervalParts, PartitionError};
use vstd::prelude::*;

verus! {

/// A managed table.
pub struct HypertableInfo {
    pub id: i32,
    pub schema_name: String,
    pub table_name: String,
    pub time_column: String,
    pub partition_interval: IntervalParts,
}

/// A partition of a managed table. Its range is in microseconds since the PostgreSQL epoch.
pub struct PartitionInfo {
    pub id: i32,
    pub hypertable_id: i32,
    pub schema_name: String,
    pub table_name: String,
    pub range_start: i64,
    pub range_end: i64,
    pub is_compressed: bool,
}

/// Whether a partition is known to be compressed.
pub open spec fn known_compressed(is_compressed: Option<bool>) -> bool {
    is_compressed == Some(true)
}

impl PartitionInfo {
    /// A partition from its row in the catalog; one that is not known to be compressed is not.
    pub fn from_row(
        id: i32,
        hypertable_id: i32,
        schema_name: String,
        table_name: String,
        range_start: i64,
        range_end: i64,
        is_compressed: Option<bool>,
    ) -> (p: PartitionInfo)
        ensures
            p == (PartitionInfo {
                id,
                hypertable_id,
                schema_name,
                table_name,
                range_start,
                range_end,
                is_compressed: known_compressed(is_compressed),
            }),
    {
        PartitionInfo {
            id,
            hypertable_id,
            schema_name,
            table_name,
            range_start,
            range_end,
            is_compressed: match is_compressed {
                Some(b) => b,
                None => false,
            },
        }
    }
}

/// The managed table that a look-up found: the first row, if there is any.
pub fn found_hypertable(rows: Vec<HypertableInfo>) -> (ht: Option<HypertableInfo>)
    ensures
        ht == if rows@.len() > 0 {
            Some(rows@[0])
        } else {
            None
        },
{
    let mut rows = rows;
    if rows.is_empty() {
        None
    } else {
        Some(rows.remove(0))
    }
}

/// The managed table that a look-up found, or the report that the table is not managed.
pub fn managed_table(
    found: Option<HypertableInfo>,
    schema: &str,
    table: &str,
) -> (r: Result<HypertableInfo, PartitionError>)
    ensures
        match r {
            Ok(ht) => found == Some(ht),
            Err(e) => found is None && e@ == (crate::partition::ErrorModel::NotManaged {
                schema: schema@,
                table: table@,
            }),
        },
{
    match found {
        Some(ht) => Ok(ht),
        None => Err(
            PartitionError::NotManaged { schema: schema.to_string(), table: table.to_string() },
        ),
    }
}

/// A partition as it is reported: its name, its range, and whether it is compressed.
pub type PartitionRow = (String, i64, i64, bool);

/// What is reported of a partition.
pub open spec fn is_partition_row(p: PartitionInfo, row: PartitionRow) -> bool {
    &&& row.0@ == p.table_name@
    &&& row.1 == p.range_start
    &&& row.2 == p.range_end
    &&& row.3 == p.is_compressed
}

/// Reports the partitions of a table, in their order.
pub fn partition_rows(partitions: &Vec<PartitionInfo>) -> (rows: Vec<PartitionRow>)
    ensures
        rows@.len() == partitions@.len(),
        forall|i: int|
            0 <= i < rows@.len() ==> is_partition_row(partitions@[i], #[trigger] rows@[i]),
{
    let mut rows: Vec<PartitionRow> = Vec::new();
    let mut i: usize = 0;
    while i < partitions.len()
        invariant
            i <= partitions@.len(),
            rows@.len() == i,
            forall|k: int| 0 <= k < i ==> is_partition_row(partitions@[k], #[trigger] rows@[k]),
        decreases partitions@.len() - i,
    {
        let p = &partitions[i];
        rows.push(
            (p.table_name.as_str().to_string(), p.range_start, p.range_end, p.is_compressed),
        );
        i = i + 1;
    }
    rows
}

/// A managed table as it is reported: schema, table, time column, interval, and the number of its
/// partitions.
pub type HypertableRow = (String, String, String, IntervalParts, i64);

/// Reports a managed table.
pub fn hypertable_row(ht: HypertableInfo, partitions: &Vec<PartitionInfo>) -> (row: HypertableRow)
    requires
        partitions@.len() <= i64::MAX,
    ensures
        row == (
            ht.schema_name,
            ht.table_name,
            ht.time_column,
            ht.partition_interval,
            partitions@.len() as i64,
        ),
{
    (
        ht.schema_name,
        ht.table_name,
        ht.time_column,
        ht.partition_interval,
        partitions.len() as i64,
    )
}

/// What is reported of a partition is its name, where its range starts and ends, and whether it is
/// compressed; a range that is not empty is reported as one.
pub proof fn law_partition_report(p: PartitionInfo, row: PartitionRow)
    requires
        is_partition_row(p, row),
    ensures
        row.0@ == p.table_name@,
        row.1 == p.range_start && row.2 == p.range_end,
        p.range_start < p.range_end ==> row.1 < row.2,
        row.3 <==> p.is_compressed,
{
}

/// A partition is compressed only if the catalog says so.
pub proof fn law_known_compressed(b: bool)
    ensures
        known_compressed(Some(b)) == b,
        !known_compressed(None),
{
}

} // verus!
