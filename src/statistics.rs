//! Descriptive statistics of the row lengths, with the quartile rule of the
//! reports: integer-division indices and the average of the two central
//! values where the index falls between them.
use vstd::prelude::*;
use vstd::relations::{sorted_by, total_ordering};
use vstd::std_specs::cmp::OrdSpec;
use crate::ordering::sort_unstable_vec;

verus! {

broadcast use vstd::seq_lib::group_to_multiset_ensures;

/// Integer statistics of a multiset of lengths. The mean is `sum / count`; the
/// population variance is `sum_of_squares / count - (sum / count)^2`.
#[derive(Clone, Copy, Debug, PartialEq, Eq)]
pub struct Statistics {
    pub count: usize,
    pub min: usize,
    pub max: usize,
    pub sum: u128,
    pub median: usize,
    pub q1: usize,
    pub q3: usize,
    /// `None` where the sum of squares does not fit in 128 bits.
    pub sum_of_squares: Option<u128>,
}

pub open spec fn length_leq() -> spec_fn(usize, usize) -> bool {
    |a: usize, b: usize| a <= b
}

/// The lengths in ascending order.
pub open spec fn sorted_lengths(s: Seq<usize>) -> Seq<usize> {
    s.sort_by(length_leq())
}

pub open spec fn seq_sum(s: Seq<usize>) -> nat
    decreases s.len(),
{
    if s.len() == 0 {
        0
    } else {
        seq_sum(s.drop_last()) + s.last() as nat
    }
}

pub open spec fn seq_sum_squares(s: Seq<usize>) -> nat
    decreases s.len(),
{
    if s.len() == 0 {
        0
    } else {
        seq_sum_squares(s.drop_last()) + (s.last() as nat) * (s.last() as nat)
    }
}

/// The average of two lengths, rounded down.
pub open spec fn mid(a: usize, b: usize) -> usize {
    ((a + b) / 2) as usize
}

/// The median of an ascending sequence.
pub open spec fn median_of(s: Seq<usize>) -> usize {
    let n = s.len() as int;
    if n % 2 == 0 {
        mid(s[n / 2 - 1], s[n / 2])
    } else {
        s[n / 2]
    }
}

/// The first quartile of an ascending sequence: index `n / 4`, averaged with
/// the element before it when `n % 4 == 0`.
pub open spec fn q1_of(s: Seq<usize>) -> usize {
    let n = s.len() as int;
    let k = n / 4;
    if n % 4 == 0 {
        mid(s[k - 1], s[k])
    } else {
        s[k]
    }
}

/// The third quartile of an ascending sequence: index `3n / 4`, averaged with
/// the element before it when `3n % 4 == 0`.
pub open spec fn q3_of(s: Seq<usize>) -> usize {
    let n = s.len() as int;
    let k = (3 * n) / 4;
    if (3 * n) % 4 == 0 {
        mid(s[k - 1], s[k])
    } else {
        s[k]
    }
}

/// The statistics of a multiset of lengths; all zero when it is empty.
pub open spec fn statistics_of(lengths: Seq<usize>) -> Statistics {
    if lengths.len() == 0 {
        Statistics {
            count: 0,
            min: 0,
            max: 0,
            sum: 0,
            median: 0,
            q1: 0,
            q3: 0,
            sum_of_squares: Some(0),
        }
    } else {
        let s = sorted_lengths(lengths);
        Statistics {
            count: lengths.len() as usize,
            min: s[0],
            max: s[s.len() - 1],
            sum: seq_sum(lengths) as u128,
            median: median_of(s),
            q1: q1_of(s),
            q3: q3_of(s),
            sum_of_squares: if seq_sum_squares(lengths) <= u128::MAX {
                Some(seq_sum_squares(lengths) as u128)
            } else {
                None
            },
        }
    }
}

proof fn lemma_length_leq_total()
    ensures
        total_ordering(length_leq()),
{
    let leq = length_leq();
    assert(vstd::relations::reflexive(leq));
    assert(vstd::relations::antisymmetric(leq));
    assert(vstd::relations::transitive(leq));
    assert(vstd::relations::strongly_connected(leq));
}

pub proof fn lemma_seq_sum_bound(s: Seq<usize>)
    ensures
        seq_sum(s) <= s.len() * (usize::MAX as nat),
    decreases s.len(),
{
    if s.len() > 0 {
        lemma_seq_sum_bound(s.drop_last());
        assert((s.len() - 1) * (usize::MAX as nat) + usize::MAX as nat == s.len() * (
        usize::MAX as nat)) by (nonlinear_arith);
    }
}

/// The midpoint of two ordered lengths, computed without overflow.
fn midpoint(a: usize, b: usize) -> (r: usize)
    requires
        a <= b,
    ensures
        r == mid(a, b),
{
    a + (b - a) / 2
}

/// Computes count, extremes, sum, sum of squares, median and quartiles of the
/// lengths (duplicates count).
pub fn calculate_statistics(lengths: &Vec<usize>) -> (r: Statistics)
    ensures
        r == statistics_of(lengths@),
{
    let n = lengths.len();
    if n == 0 {
        return Statistics {
            count: 0,
            min: 0,
            max: 0,
            sum: 0,
            median: 0,
            q1: 0,
            q3: 0,
            sum_of_squares: Some(0),
        };
    }
    let mut sorted: Vec<usize> = Vec::new();
    let mut sum: u128 = 0;
    let mut squares: Option<u128> = Some(0);
    let mut i: usize = 0;
    while i < n
        invariant
            n == lengths@.len(),
            i <= n,
            sorted@ == lengths@.take(i as int),
            sum == seq_sum(lengths@.take(i as int)),
            squares == if seq_sum_squares(lengths@.take(i as int)) <= u128::MAX {
                Some(seq_sum_squares(lengths@.take(i as int)) as u128)
            } else {
                None::<u128>
            },
        decreases n - i,
    {
        let x = lengths[i];
        proof {
            assert(lengths@.take(i + 1).drop_last() =~= lengths@.take(i as int));
            lemma_seq_sum_bound(lengths@.take(i + 1));
            assert((i + 1) * (usize::MAX as nat) <= u128::MAX) by (nonlinear_arith)
                requires
                    i + 1 <= usize::MAX,
                    usize::MAX <= u64::MAX,
            ;
            assert((x as nat) * (x as nat) <= u128::MAX) by (nonlinear_arith)
                requires
                    x <= u64::MAX,
            ;
        }
        sorted.push(x);
        sum = sum + x as u128;
        let sq: u128 = (x as u128) * (x as u128);
        squares = match squares {
            Some(acc) => acc.checked_add(sq),
            None => None,
        };
        i = i + 1;
        proof {
            assert(sorted@ =~= lengths@.take(i as int));
        }
    }
    assert(lengths@.take(n as int) =~= lengths@);
    let ghost unsorted = sorted@;
    sort_unstable_vec(&mut sorted);
    proof {
        assert forall|a: int, b: int| 0 <= a < b < sorted@.len() implies #[trigger] (length_leq())(
            sorted@[a],
            sorted@[b],
        ) by {
            assert(sorted@[a].cmp_spec(&sorted@[b]) != core::cmp::Ordering::Greater);
        }
        lemma_length_leq_total();
        lengths@.lemma_sort_by_ensures(length_leq());
        vstd::seq_lib::lemma_sorted_unique(sorted@, sorted_lengths(lengths@), length_leq());
        assert(sorted@.to_multiset().len() == sorted@.len());
        assert(unsorted.to_multiset().len() == unsorted.len());
    }
    let ghost s = sorted@;
    assert(forall|a: int, b: int| 0 <= a < b < n ==> s[a] <= s[b]) by {
        assert forall|a: int, b: int| 0 <= a < b < n implies s[a] <= s[b] by {
            assert((length_leq())(s[a], s[b]));
        }
    }
    let median = if n % 2 == 0 {
        midpoint(sorted[n / 2 - 1], sorted[n / 2])
    } else {
        sorted[n / 2]
    };
    let k1 = n / 4;
    let q1 = if n % 4 == 0 {
        midpoint(sorted[k1 - 1], sorted[k1])
    } else {
        sorted[k1]
    };
    let k3: usize = n / 4 * 3 + (n % 4) * 3 / 4;
    assert(k3 == (3 * n) / 4 && k3 < n);
    let q3 = if n % 4 == 0 {
        midpoint(sorted[k3 - 1], sorted[k3])
    } else {
        sorted[k3]
    };
    assert(((3 * n) % 4 == 0) == (n % 4 == 0));
    Statistics {
        count: n,
        min: sorted[0],
        max: sorted[n - 1],
        sum,
        median,
        q1,
        q3,
        sum_of_squares: squares,
    }
}

} // verus!
