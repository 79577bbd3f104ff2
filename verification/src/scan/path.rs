//! The numbers that a plan of a row scan hands from the planner to the executor.
//!
//! A plan is a list of integers: the identifier of the companion table, the mark -1, and the
//! indices of the columns that the query reads.

use vstd::prelude::*;

verus! {

/// The attribute number below which there are only system columns, less one: members of a set of
/// attribute numbers are shifted by it.
pub const FIRST_LOW_INVALID_ATTNO: i32 = -7;

/// Separates the companion table from the column indices.
pub const SENTINEL: i32 = -1;

/// An identifier as a signed list element.
pub open spec fn oid_element(oid: u32) -> i32 {
    if oid < 0x8000_0000 {
        oid as i32
    } else {
        (oid - 0x1_0000_0000) as i32
    }
}

/// The identifier that a signed list element holds.
pub open spec fn element_oid(v: i32) -> u32 {
    if v >= 0 {
        v as u32
    } else {
        (v + 0x1_0000_0000) as u32
    }
}

/// The column indices of the first `n` members of a set of shifted attribute numbers. System
/// columns and whole-row references have none.
pub open spec fn member_columns(members: Seq<i32>, n: nat) -> Seq<i32>
    decreases n,
{
    if n == 0 {
        Seq::empty()
    } else {
        let earlier = member_columns(members, (n - 1) as nat);
        let attno = members[n - 1] + FIRST_LOW_INVALID_ATTNO;
        if attno > 0 {
            earlier.push((attno - 1) as i32)
        } else {
            earlier
        }
    }
}

/// The plan for a companion table and the attributes that the query reads.
pub open spec fn private_list(companion_oid: u32, members: Seq<i32>) -> Seq<i32> {
    seq![oid_element(companion_oid), SENTINEL] + member_columns(members, members.len())
}

/// Builds the plan for a companion table and the attributes that the query reads.
pub fn plan_custom_path(companion_oid: u32, needed_attrs: &[i32]) -> (list: Vec<i32>)
    requires
        forall|i: int| 0 <= i < needed_attrs@.len() ==> (#[trigger] needed_attrs@[i]) >= 0,
    ensures
        list@ == private_list(companion_oid, needed_attrs@),
{
    let mut list: Vec<i32> = Vec::new();
    let oid: i32 = companion_oid as i32;
    assert(companion_oid < 0x8000_0000 ==> oid == companion_oid) by (bit_vector)
        requires
            oid == companion_oid as i32,
    ;
    assert(companion_oid >= 0x8000_0000 ==> oid == companion_oid - 0x1_0000_0000) by (bit_vector)
        requires
            oid == companion_oid as i32,
    ;
    list.push(oid);
    list.push(SENTINEL);
    let mut i: usize = 0;
    assert(list@ =~= seq![oid_element(companion_oid), SENTINEL] + member_columns(
        needed_attrs@,
        0,
    ));
    while i < needed_attrs.len()
        invariant
            i <= needed_attrs@.len(),
            forall|k: int| 0 <= k < needed_attrs@.len() ==> (#[trigger] needed_attrs@[k]) >= 0,
            list@ == seq![oid_element(companion_oid), SENTINEL] + member_columns(
                needed_attrs@,
                i as nat,
            ),
        decreases needed_attrs@.len() - i,
    {
        let attno: i32 = needed_attrs[i] + FIRST_LOW_INVALID_ATTNO;
        let ghost before = member_columns(needed_attrs@, i as nat);
        if attno > 0 {
            list.push(attno - 1);
            assert(list@ =~= seq![oid_element(companion_oid), SENTINEL] + before.push(
                (attno - 1) as i32,
            ));
        }
        i = i + 1;
    }
    list
}

/// What a plan says: the companion table and the column indices.
pub struct ScanPlan {
    pub companion_oid: u32,
    pub needed_indices: Vec<i32>,
}

/// The elements of the first `n` that follow the first mark, without further marks.
pub open spec fn indices_after(list: Seq<i32>, n: nat) -> Seq<i32>
    decreases n,
{
    if n <= 1 {
        Seq::empty()
    } else {
        let earlier = indices_after(list, (n - 1) as nat);
        if list[n - 1] != SENTINEL && mark_before(list, n - 1) {
            earlier.push(list[n - 1])
        } else {
            earlier
        }
    }
}

/// Whether there is a mark before position `i`, other than at the first position.
pub open spec fn mark_before(list: Seq<i32>, i: int) -> bool {
    exists|k: int| 1 <= k < i && #[trigger] list[k] == SENTINEL
}

/// Reads a plan. An empty plan names no companion table.
pub fn parse_private(list: &[i32]) -> (plan: Option<ScanPlan>)
    ensures
        plan is None <==> list@.len() == 0,
        plan matches Some(p) ==> {
            &&& p.companion_oid == element_oid(list@[0])
            &&& p.needed_indices@ == indices_after(list@, list@.len())
        },
{
    if list.is_empty() {
        return None;
    }
    let first: i32 = list[0];
    let companion_oid: u32 = first as u32;
    assert(first >= 0 ==> companion_oid == first) by (bit_vector)
        requires
            companion_oid == first as u32,
    ;
    assert(first < 0 ==> companion_oid == first + 0x1_0000_0000) by (bit_vector)
        requires
            companion_oid == first as u32,
    ;
    let mut needed_indices: Vec<i32> = Vec::new();
    let mut found_sentinel = false;
    let mut i: usize = 1;
    while i < list.len()
        invariant
            1 <= i <= list@.len(),
            found_sentinel == mark_before(list@, i as int),
            needed_indices@ == indices_after(list@, i as nat),
        decreases list@.len() - i,
    {
        let v: i32 = list[i];
        if v == SENTINEL {
            found_sentinel = true;
            assert(list@[i as int] == SENTINEL);
        } else if found_sentinel {
            needed_indices.push(v);
        }
        assert(mark_before(list@, i + 1) <==> mark_before(list@, i as int) || v == SENTINEL);
        i = i + 1;
    }
    Some(ScanPlan { companion_oid, needed_indices })
}

/// Reading a plan gives back the companion table and the columns that it was built from.
pub proof fn law_plan_roundtrip(companion_oid: u32, members: Seq<i32>)
    requires
        forall|i: int| 0 <= i < members.len() ==> (#[trigger] members[i]) >= 0,
    ensures
        ({
            let list = private_list(companion_oid, members);
            &&& element_oid(list[0]) == companion_oid
            &&& indices_after(list, list.len()) == member_columns(members, members.len())
        }),
{
    let list = private_list(companion_oid, members);
    let columns = member_columns(members, members.len());
    lemma_columns_not_negative(members, members.len());
    lemma_indices_after(list, columns, columns.len());
    assert(columns.take(columns.len() as int) =~= columns);
}

/// Column indices are not negative.
proof fn lemma_columns_not_negative(members: Seq<i32>, n: nat)
    requires
        n <= members.len(),
    ensures
        forall|i: int|
            0 <= i < member_columns(members, n).len() ==> (#[trigger] member_columns(members, n)[i])
                >= 0,
    decreases n,
{
    if n > 0 {
        lemma_columns_not_negative(members, (n - 1) as nat);
        let earlier = member_columns(members, (n - 1) as nat);
        let all = member_columns(members, n);
        assert forall|i: int| 0 <= i < all.len() implies (#[trigger] all[i]) >= 0 by {
            if i < earlier.len() {
                assert(all[i] == earlier[i]);
            }
        }
    }
}

/// The indices after the mark of a plan are its columns.
proof fn lemma_indices_after(list: Seq<i32>, columns: Seq<i32>, n: nat)
    requires
        list.len() == columns.len() + 2,
        list[1] == SENTINEL,
        forall|i: int| 0 <= i < columns.len() ==> list[i + 2] == #[trigger] columns[i],
        forall|i: int| 0 <= i < columns.len() ==> (#[trigger] columns[i]) >= 0,
        n <= columns.len(),
    ensures
        indices_after(list, n + 2) == columns.take(n as int),
    decreases n,
{
    if n == 0 {
        reveal_with_fuel(indices_after, 3);
        assert(columns.take(0) =~= Seq::<i32>::empty());
    } else {
        lemma_indices_after(list, columns, (n - 1) as nat);
        assert(list[n as int + 1] == columns[n - 1]);
        assert(mark_before(list, n as int + 1));
        assert(columns.take(n as int) =~= columns.take(n - 1).push(columns[n - 1]));
    }
}

/// The columns of a plan are those of the attributes that the query reads, in order: a member of the
/// set stands seven above its attribute number, and attributes are numbered from one. Members for
/// system columns and whole rows have no column.
pub proof fn law_member_columns(members: Seq<i32>, m: i32)
    requires
        m >= 0,
        forall|i: int| 0 <= i < members.len() ==> (#[trigger] members[i]) >= 0,
    ensures
        member_columns(Seq::empty(), 0).len() == 0,
        m >= 8 ==> member_columns(members.push(m), members.len() + 1) == member_columns(
            members,
            members.len(),
        ).push((m - 8) as i32),
        m < 8 ==> member_columns(members.push(m), members.len() + 1) == member_columns(
            members,
            members.len(),
        ),
{
    lemma_columns_of_prefix(members, members.push(m), members.len());
}

/// The columns of the first members depend on these alone.
proof fn lemma_columns_of_prefix(a: Seq<i32>, b: Seq<i32>, n: nat)
    requires
        n <= a.len(),
        n <= b.len(),
        forall|i: int| 0 <= i < n ==> a[i] == b[i],
    ensures
        member_columns(a, n) == member_columns(b, n),
    decreases n,
{
    if n > 0 {
        lemma_columns_of_prefix(a, b, (n - 1) as nat);
    }
}

/// An identifier and its list element have the same 32 bits.
pub proof fn law_oid_elements(oid: u32, v: i32)
    ensures
        element_oid(oid_element(oid)) == oid,
        oid_element(element_oid(v)) == v,
        (oid - oid_element(oid)) % 0x1_0000_0000 == 0,
{
}

/// One more element is one more column exactly if a mark stands before it, other than at the first
/// place, and it is no mark itself.
pub proof fn law_elements_behind_the_mark(list: Seq<i32>, v: i32)
    requires
        list.len() > 0,
    ensures
        indices_after(list.take(1), 1).len() == 0,
        v == -1 ==> indices_after(list.push(v), list.len() + 1) == indices_after(list, list.len()),
        v != -1 && (exists|k: int| 1 <= k < list.len() && #[trigger] list[k] == -1)
            ==> indices_after(list.push(v), list.len() + 1) == indices_after(
            list,
            list.len(),
        ).push(v),
        !(exists|k: int| 1 <= k < list.len() && #[trigger] list[k] == -1) ==> indices_after(
            list.push(v),
            list.len() + 1,
        ) == indices_after(list, list.len()),
{
    let more = list.push(v);
    lemma_indices_of_prefix(list, more, list.len());
    let n = list.len() as int;
    assert(more[n] == v);
    if exists|k: int| 1 <= k < list.len() && #[trigger] list[k] == -1 {
        let k = choose|k: int| 1 <= k < list.len() && #[trigger] list[k] == -1;
        assert(more[k] == SENTINEL);
        assert(mark_before(more, n));
    } else {
        assert(!mark_before(more, n)) by {
            if mark_before(more, n) {
                let k = choose|k: int| 1 <= k < n && #[trigger] more[k] == SENTINEL;
                assert(list[k] == -1);
            }
        }
    }
}

/// The indices among the first elements depend on these alone.
proof fn lemma_indices_of_prefix(a: Seq<i32>, b: Seq<i32>, n: nat)
    requires
        n <= a.len(),
        n <= b.len(),
        forall|i: int| 0 <= i < n ==> a[i] == b[i],
    ensures
        indices_after(a, n) == indices_after(b, n),
    decreases n,
{
    if n > 1 {
        lemma_indices_of_prefix(a, b, (n - 1) as nat);
        assert(mark_before(a, n - 1) == mark_before(b, n - 1)) by {
            if mark_before(a, n - 1) {
                let k = choose|k: int| 1 <= k < n - 1 && #[trigger] a[k] == SENTINEL;
                assert(b[k] == SENTINEL);
            }
            if mark_before(b, n - 1) {
                let k = choose|k: int| 1 <= k < n - 1 && #[trigger] b[k] == SENTINEL;
                assert(a[k] == SENTINEL);
            }
        }
    }
}

} // verus!
