//! Orders in which the reports list rows and groups, as permutations of
//! indices.
use vstd::prelude::*;
use core::cmp::Ordering;
use vstd::relations::sorted_by;
use vstd::std_specs::cmp::OrdSpec;
use crate::distribution::{LengthGroup, PageGroup};
use crate::rows::RowRecord;

verus! {

broadcast use vstd::seq_lib::group_to_multiset_ensures;

/// Lexicographic order on pairs.
pub open spec fn pair_leq(a: (usize, usize), b: (usize, usize)) -> bool {
    a.0 < b.0 || (a.0 == b.0 && a.1 <= b.1)
}

/// Lexicographic order on triples, the order std gives tuples.
pub open spec fn triple_leq() -> spec_fn((usize, usize, usize), (usize, usize, usize)) -> bool {
    |a: (usize, usize, usize), b: (usize, usize, usize)|
        a.0 < b.0 || (a.0 == b.0 && (a.1 < b.1 || (a.1 == b.1 && a.2 <= b.2)))
}

/// `order` lists every index of `keys` once, keys descending.
pub open spec fn is_descending_order(keys: Seq<(usize, usize)>, order: Seq<usize>) -> bool {
    &&& order.len() == keys.len()
    &&& order.no_duplicates()
    &&& forall|i: int| 0 <= i < order.len() ==> order[i] < keys.len()
    &&& forall|i: int, j: int|
        0 <= i < j < order.len() ==> pair_leq(keys[order[j] as int], keys[order[i] as int])
}

/// Relies on `slice::sort_unstable`: the slice comes back in ascending order
/// of the element type's `Ord`, and sorting only reorders the elements.
#[verifier::external_body]
pub(crate) fn sort_unstable_vec<T: Ord>(v: &mut Vec<T>)
    ensures
        final(v)@.to_multiset() == old(v)@.to_multiset(),
        T::obeys_cmp_spec() ==> forall|i: int, j: int|
            #![trigger final(v)@[i], final(v)@[j]]
            0 <= i < j < final(v)@.len() ==> final(v)@[i].cmp_spec(&final(v)@[j])
                != Ordering::Greater,
{
    v.sort_unstable();
}

/// The indices of `keys`, largest key first.
pub fn order_descending(keys: &Vec<(usize, usize)>) -> (r: Vec<usize>)
    ensures
        is_descending_order(keys@, r@),
{
    let n = keys.len();
    let mut triples: Vec<(usize, usize, usize)> = Vec::new();
    let mut i: usize = 0;
    while i < n
        invariant
            n == keys@.len(),
            i <= n,
            triples@.len() == i,
            forall|k: int| 0 <= k < i ==> #[trigger] triples@[k] == (keys@[k].0, keys@[k].1, k as usize),
        decreases n - i,
    {
        triples.push((keys[i].0, keys[i].1, i));
        i = i + 1;
    }
    let ghost orig = triples@;
    proof {
        assert(orig.no_duplicates()) by {
            assert forall|a: int, b: int| 0 <= a < orig.len() && 0 <= b < orig.len() && a != b implies orig[a]
                != orig[b] by {
                assert(orig[a].2 == a);
                assert(orig[b].2 == b);
            }
        }
        orig.lemma_multiset_has_no_duplicates();
    }
    sort_unstable_vec(&mut triples);
    let ghost s = triples@;
    proof {
        assert forall|a: int, b: int| 0 <= a < b < s.len() implies (#[trigger] (triple_leq())(
            s[a],
            s[b],
        )) by {
            assert(s[a].cmp_spec(&s[b]) != Ordering::Greater);
        }
        s.lemma_multiset_has_no_duplicates_conv();
        assert(s.len() == n) by {
            assert(s.to_multiset().len() == s.len());
            assert(orig.to_multiset().len() == orig.len());
        }
        assert forall|k: int| 0 <= k < s.len() implies s[k].2 < n && s[k] == orig[s[k].2 as int] by {
            assert(s.to_multiset().count(s[k]) > 0);
            assert(orig.contains(s[k]));
            let m = choose|m: int| 0 <= m < orig.len() && orig[m] == s[k];
            assert(orig[m].2 == m);
        }
    }
    let mut order: Vec<usize> = Vec::new();
    let mut j: usize = 0;
    while j < n
        invariant
            n == keys@.len() == s.len(),
            triples@ == s,
            s.no_duplicates(),
            sorted_by(s, triple_leq()),
            forall|k: int| 0 <= k < s.len() ==> s[k].2 < n && s[k] == orig[s[k].2 as int],
            forall|k: int| 0 <= k < n ==> #[trigger] orig[k] == (keys@[k].0, keys@[k].1, k as usize),
            j <= n,
            order@.len() == j,
            forall|k: int| 0 <= k < j ==> #[trigger] order@[k] == s[n - 1 - k].2,
        decreases n - j,
    {
        order.push(triples[n - 1 - j].2);
        j = j + 1;
    }
    proof {
        assert forall|a: int, b: int| 0 <= a < n && 0 <= b < n && a != b implies order@[a]
            != order@[b] by {
            if order@[a] == order@[b] {
                assert(s[n - 1 - a] == orig[order@[a] as int]);
                assert(s[n - 1 - b] == orig[order@[b] as int]);
            }
        }
        assert forall|a: int, b: int| 0 <= a < b < n implies pair_leq(
            keys@[order@[b] as int],
            keys@[order@[a] as int],
        ) by {
            assert((triple_leq())(s[n - 1 - b], s[n - 1 - a]));
            assert(s[n - 1 - a] == orig[order@[a] as int]);
            assert(s[n - 1 - b] == orig[order@[b] as int]);
        }
    }
    order
}

/// Group indices, longest length first.
pub fn groups_by_length(groups: &Vec<LengthGroup>) -> (r: Vec<usize>)
    ensures
        r@.len() == groups@.len(),
        r@.no_duplicates(),
        forall|i: int| 0 <= i < r@.len() ==> r@[i] < groups@.len(),
        forall|i: int, j: int|
            0 <= i < j < r@.len() ==> groups@[r@[j] as int].length <= groups@[r@[i] as int].length,
{
    let mut keys: Vec<(usize, usize)> = Vec::new();
    let mut i: usize = 0;
    while i < groups.len()
        invariant
            i <= groups@.len(),
            keys@.len() == i,
            forall|k: int| 0 <= k < i ==> #[trigger] keys@[k] == (groups@[k].length, 0usize),
        decreases groups@.len() - i,
    {
        keys.push((groups[i].length, 0));
        i = i + 1;
    }
    let order = order_descending(&keys);
    assert forall|a: int, b: int| 0 <= a < b < order@.len() implies groups@[order@[b] as int].length
        <= groups@[order@[a] as int].length by {
        assert(pair_leq(keys@[order@[b] as int], keys@[order@[a] as int]));
    }
    order
}

/// Group indices, most rows first; among equal counts, longest length first.
pub fn groups_by_frequency(groups: &Vec<LengthGroup>) -> (r: Vec<usize>)
    ensures
        is_descending_order(
            groups@.map_values(|g: LengthGroup| (g.file_rows@.len() as usize, g.length)),
            r@,
        ),
{
    let ghost ks = groups@.map_values(|g: LengthGroup| (g.file_rows@.len() as usize, g.length));
    let mut keys: Vec<(usize, usize)> = Vec::new();
    let mut i: usize = 0;
    while i < groups.len()
        invariant
            i <= groups@.len(),
            keys@ == ks.take(i as int),
            ks == groups@.map_values(|g: LengthGroup| (g.file_rows@.len() as usize, g.length)),
        decreases groups@.len() - i,
    {
        keys.push((groups[i].count(), groups[i].length));
        i = i + 1;
        proof {
            assert(keys@ =~= ks.take(i as int));
        }
    }
    assert(keys@ =~= ks);
    order_descending(&keys)
}

/// Page-table indices, most rows first; among equal counts, largest bucket
/// first.
pub fn pages_by_frequency(pages: &Vec<PageGroup>) -> (r: Vec<usize>)
    ensures
        is_descending_order(
            pages@.map_values(|p: PageGroup| (p.file_rows@.len() as usize, p.bucket)),
            r@,
        ),
{
    let ghost ks = pages@.map_values(|p: PageGroup| (p.file_rows@.len() as usize, p.bucket));
    let mut keys: Vec<(usize, usize)> = Vec::new();
    let mut i: usize = 0;
    while i < pages.len()
        invariant
            i <= pages@.len(),
            keys@ == ks.take(i as int),
            ks == pages@.map_values(|p: PageGroup| (p.file_rows@.len() as usize, p.bucket)),
        decreases pages@.len() - i,
    {
        keys.push((pages[i].count(), pages[i].bucket));
        i = i + 1;
        proof {
            assert(keys@ =~= ks.take(i as int));
        }
    }
    assert(keys@ =~= ks);
    order_descending(&keys)
}

/// Row indices, longest row first; rows of equal length keep corpus order.
pub fn records_by_length(records: &Vec<RowRecord>) -> (r: Vec<usize>)
    ensures
        r@.len() == records@.len(),
        r@.no_duplicates(),
        forall|i: int| 0 <= i < r@.len() ==> r@[i] < records@.len(),
        forall|i: int, j: int|
            0 <= i < j < r@.len() ==> records@[r@[j] as int].char_count < records@[r@[i] as int].char_count
                || (records@[r@[j] as int].char_count == records@[r@[i] as int].char_count && r@[i]
                < r@[j]),
{
    let n = records.len();
    let mut keys: Vec<(usize, usize)> = Vec::new();
    let mut i: usize = 0;
    while i < n
        invariant
            n == records@.len(),
            i <= n,
            keys@.len() == i,
            forall|k: int|
                0 <= k < i ==> #[trigger] keys@[k] == (records@[k].char_count, (n - 1 - k) as usize),
        decreases n - i,
    {
        keys.push((records[i].char_count, n - 1 - i));
        i = i + 1;
    }
    let order = order_descending(&keys);
    proof {
        assert forall|a: int, b: int| 0 <= a < b < order@.len() implies records@[order@[b] as int].char_count
            < records@[order@[a] as int].char_count || (records@[order@[b] as int].char_count
            == records@[order@[a] as int].char_count && order@[a] < order@[b]) by {
            assert(pair_leq(keys@[order@[b] as int], keys@[order@[a] as int]));
            assert(order@[a] != order@[b]);
        }
    }
    order
}

} // verus!
