//! Outlier detection by the 1.5 x IQR rule. Only the upper fence filters; the
//! lower fence is computed for display.
use vstd::prelude::*;
use crate::distribution::{LengthGroup, distinct_group_lengths};

verus! {

/// The interquartile range and the two fences, each fence doubled so that it
/// is an integer: `upper = q3 + 1.5 * iqr = upper_doubled / 2` and
/// `lower = q1 - 1.5 * iqr = lower_doubled / 2`.
#[derive(Clone, Copy, Debug, PartialEq, Eq, Structural)]
pub struct OutlierFences {
    pub iqr: i128,
    pub upper_doubled: i128,
    pub lower_doubled: i128,
}

/// A distinct length above the upper fence, with its number of rows.
#[derive(Clone, Copy, Debug, PartialEq, Eq, Structural)]
pub struct OutlierEntry {
    pub length: usize,
    pub count: usize,
}

/// `length > q3 + 1.5 * (q3 - q1)`, in integers.
pub open spec fn exceeds_upper_fence(length: int, q1: int, q3: int) -> bool {
    2 * length > 5 * q3 - 3 * q1
}

/// The fences of the 1.5 x IQR rule for the given quartiles.
pub open spec fn fences_of(q1: int, q3: int) -> OutlierFences {
    OutlierFences {
        iqr: (q3 - q1) as i128,
        upper_doubled: (2 * q3 + 3 * (q3 - q1)) as i128,
        lower_doubled: (2 * q1 - 3 * (q3 - q1)) as i128,
    }
}

pub fn outlier_fences(q1: usize, q3: usize) -> (r: OutlierFences)
    ensures
        r == fences_of(q1 as int, q3 as int),
{
    let a = q1 as i128;
    let b = q3 as i128;
    OutlierFences { iqr: b - a, upper_doubled: 5 * b - 3 * a, lower_doubled: 5 * a - 3 * b }
}

/// Whether a length lies above the upper fence.
pub fn is_outlier(length: usize, q1: usize, q3: usize) -> (r: bool)
    ensures
        r == exceeds_upper_fence(length as int, q1 as int, q3 as int),
{
    2 * (length as u128) + 3 * (q1 as u128) > 5 * (q3 as u128)
}

/// The entry that stands for a length group.
pub open spec fn group_entry(g: LengthGroup) -> OutlierEntry {
    OutlierEntry { length: g.length, count: g.file_rows@.len() as usize }
}

pub open spec fn strictly_descending(out: Seq<OutlierEntry>) -> bool {
    forall|i: int, j: int| 0 <= i < j < out.len() ==> out[i].length > out[j].length
}

/// `e` stands for a group of `groups` whose length is above the upper fence.
pub open spec fn is_fenced_entry(groups: Seq<LengthGroup>, q1: int, q3: int, e: OutlierEntry) -> bool {
    exists|j: int|
        0 <= j < groups.len() && e == #[trigger] group_entry(groups[j]) && exceeds_upper_fence(
            groups[j].length as int,
            q1,
            q3,
        )
}

/// `out` lists the groups whose length is above the upper fence, each once
/// with its row count, in strictly descending order of length.
pub open spec fn is_outlier_set(groups: Seq<LengthGroup>, q1: int, q3: int, out: Seq<OutlierEntry>) -> bool {
    &&& strictly_descending(out)
    &&& forall|i: int| 0 <= i < out.len() ==> #[trigger] is_fenced_entry(groups, q1, q3, out[i])
    &&& forall|j: int|
        0 <= j < groups.len() && exceeds_upper_fence(groups[j].length as int, q1, q3)
            ==> out.contains(#[trigger] group_entry(groups[j]))
}

/// Inserts an entry into a list kept in strictly descending order of length.
fn insert_descending(out: &mut Vec<OutlierEntry>, e: OutlierEntry)
    requires
        strictly_descending(old(out)@),
        forall|m: int| 0 <= m < old(out)@.len() ==> old(out)@[m].length != e.length,
    ensures
        strictly_descending(final(out)@),
        forall|x: OutlierEntry| final(out)@.contains(x) <==> (old(out)@.contains(x) || x == e),
{
    let mut k: usize = 0;
    while k < out.len() && out[k].length > e.length
        invariant
            k <= out@.len(),
            forall|m: int| 0 <= m < k ==> out@[m].length > e.length,
        decreases out@.len() - k,
    {
        k = k + 1;
    }
    let ghost before = out@;
    out.insert(k, e);
    proof {
        assert(out@ =~= before.insert(k as int, e));
        assert forall|a: int, c: int| 0 <= a < c < out@.len() implies out@[a].length
            > out@[c].length by {
            if c == k {
                assert(out@[a] == before[a]);
            } else if a == k {
                assert(out@[c] == before[c - 1]);
                assert(before[k as int].length <= e.length);
            } else if c < k {
                assert(out@[a] == before[a]);
                assert(out@[c] == before[c]);
            } else if a < k {
                assert(out@[a] == before[a]);
                assert(out@[c] == before[c - 1]);
            } else {
                assert(out@[a] == before[a - 1]);
                assert(out@[c] == before[c - 1]);
            }
        }
        assert forall|x: OutlierEntry| out@.contains(x) <==> (before.contains(x) || x == e) by {
            if out@.contains(x) {
                let m = choose|m: int| 0 <= m < out@.len() && out@[m] == x;
                if m < k {
                    assert(before[m] == x);
                } else if m > k {
                    assert(before[m - 1] == x);
                }
            }
            if before.contains(x) {
                let m = choose|m: int| 0 <= m < before.len() && before[m] == x;
                if m < k {
                    assert(out@[m] == x);
                } else {
                    assert(out@[m + 1] == x);
                }
            }
            if x == e {
                assert(out@[k as int] == x);
            }
        }
    }
}

/// The distinct lengths above the upper fence, largest first, each with the
/// row count of its group.
pub fn find_outliers(groups: &Vec<LengthGroup>, q1: usize, q3: usize) -> (r: Vec<OutlierEntry>)
    requires
        distinct_group_lengths(groups@),
    ensures
        is_outlier_set(groups@, q1 as int, q3 as int, r@),
{
    let mut out: Vec<OutlierEntry> = Vec::new();
    let mut j: usize = 0;
    while j < groups.len()
        invariant
            j <= groups@.len(),
            distinct_group_lengths(groups@),
            is_outlier_set(groups@.take(j as int), q1 as int, q3 as int, out@),
        decreases groups@.len() - j,
    {
        let g = &groups[j];
        let ghost p = groups@.take(j as int);
        let ghost q = groups@.take(j + 1);
        assert(q =~= p.push(*g));
        let ghost before = out@;
        if is_outlier(g.length, q1, q3) {
            let e = OutlierEntry { length: g.length, count: g.count() };
            proof {
                assert forall|m: int| 0 <= m < before.len() implies before[m].length != e.length by {
                    assert(is_fenced_entry(p, q1 as int, q3 as int, before[m]));
                    let jj = choose|jj: int|
                        0 <= jj < p.len() && before[m] == #[trigger] group_entry(p[jj])
                            && exceeds_upper_fence(p[jj].length as int, q1 as int, q3 as int);
                    assert(groups@[jj] == p[jj]);
                }
            }
            insert_descending(&mut out, e);
            proof {
                assert(e == group_entry(q[j as int]));
                assert forall|m: int| 0 <= m < out@.len() implies #[trigger] is_fenced_entry(
                    q,
                    q1 as int,
                    q3 as int,
                    out@[m],
                ) by {
                    assert(out@.contains(out@[m]));
                    if out@[m] != e {
                        assert(before.contains(out@[m]));
                        let mm = choose|mm: int| 0 <= mm < before.len() && before[mm] == out@[m];
                        assert(is_fenced_entry(p, q1 as int, q3 as int, before[mm]));
                        let jj = choose|jj: int|
                            0 <= jj < p.len() && before[mm] == #[trigger] group_entry(p[jj])
                                && exceeds_upper_fence(p[jj].length as int, q1 as int, q3 as int);
                        assert(q[jj] == p[jj]);
                    }
                }
                assert forall|jj: int|
                    0 <= jj < q.len() && exceeds_upper_fence(q[jj].length as int, q1 as int, q3 as int)
                    implies out@.contains(#[trigger] group_entry(q[jj])) by {
                    if jj < j {
                        assert(p[jj] == q[jj]);
                    }
                }
            }
        } else {
            proof {
                assert forall|m: int| 0 <= m < out@.len() implies #[trigger] is_fenced_entry(
                    q,
                    q1 as int,
                    q3 as int,
                    out@[m],
                ) by {
                    assert(is_fenced_entry(p, q1 as int, q3 as int, out@[m]));
                    let jj = choose|jj: int|
                        0 <= jj < p.len() && out@[m] == #[trigger] group_entry(p[jj])
                            && exceeds_upper_fence(p[jj].length as int, q1 as int, q3 as int);
                    assert(q[jj] == p[jj]);
                }
                assert forall|jj: int|
                    0 <= jj < q.len() && exceeds_upper_fence(q[jj].length as int, q1 as int, q3 as int)
                    implies out@.contains(#[trigger] group_entry(q[jj])) by {
                    assert(jj != j);
                    assert(p[jj] == q[jj]);
                }
            }
        }
        j = j + 1;
    }
    assert(groups@.take(groups@.len() as int) =~= groups@);
    out
}

/// The total number of rows in the outlier entries.
pub fn outlier_row_count(entries: &Vec<OutlierEntry>) -> (r: u128)
    ensures
        r == entry_count_sum(entries@),
{
    let mut total: u128 = 0;
    let mut i: usize = 0;
    while i < entries.len()
        invariant
            i <= entries@.len(),
            total == entry_count_sum(entries@.take(i as int)),
            total <= i * (usize::MAX as nat),
        decreases entries@.len() - i,
    {
        proof {
            assert(entries@.take(i + 1).drop_last() =~= entries@.take(i as int));
            assert((i + 1) * (usize::MAX as nat) == i * (usize::MAX as nat) + usize::MAX as nat)
                by (nonlinear_arith);
            assert((i + 1) * (usize::MAX as nat) <= u128::MAX) by (nonlinear_arith)
                requires
                    i + 1 <= usize::MAX,
                    usize::MAX <= u64::MAX,
            ;
        }
        total = total + entries[i].count as u128;
        i = i + 1;
    }
    assert(entries@.take(entries@.len() as int) =~= entries@);
    total
}

pub open spec fn entry_count_sum(es: Seq<OutlierEntry>) -> nat
    decreases es.len(),
{
    if es.len() == 0 {
        0
    } else {
        entry_count_sum(es.drop_last()) + es.last().count as nat
    }
}

} // verus!
