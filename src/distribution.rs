//! Frequency tables: rows grouped by exact length, and length groups
//! regrouped by page bucket.
use vstd::prelude::*;
use std::collections::HashMap;
use crate::rows::RowRecord;

verus! {

broadcast use vstd::std_specs::hash::group_hash_axioms;

/// The rows of one length: their line numbers and data indices, in corpus
/// order. The group's count is the number of rows.
pub struct LengthGroup {
    pub length: usize,
    pub file_rows: Vec<usize>,
    pub data_indices: Vec<isize>,
}

impl LengthGroup {
    /// The number of rows of this length.
    pub fn count(&self) -> (r: usize)
        ensures
            r == self.file_rows@.len(),
    {
        self.file_rows.len()
    }
}

/// The distinct lengths of the rows, in order of first appearance.
pub open spec fn distinct_lengths(rs: Seq<RowRecord>) -> Seq<usize>
    decreases rs.len(),
{
    if rs.len() == 0 {
        Seq::empty()
    } else {
        let prev = distinct_lengths(rs.drop_last());
        if prev.contains(rs.last().char_count) {
            prev
        } else {
            prev.push(rs.last().char_count)
        }
    }
}

/// The rows of the given length, in corpus order.
pub open spec fn rows_with_length(rs: Seq<RowRecord>, len: usize) -> Seq<RowRecord>
    decreases rs.len(),
{
    if rs.len() == 0 {
        Seq::empty()
    } else {
        let prev = rows_with_length(rs.drop_last(), len);
        if rs.last().char_count == len {
            prev.push(rs.last())
        } else {
            prev
        }
    }
}

pub open spec fn file_rows_of(rs: Seq<RowRecord>) -> Seq<usize> {
    rs.map_values(|r: RowRecord| r.file_row)
}

pub open spec fn data_indices_of(rs: Seq<RowRecord>) -> Seq<isize> {
    rs.map_values(|r: RowRecord| r.data_index)
}

/// `g` holds exactly the rows of `rs` that have its length.
pub open spec fn describes_length(g: LengthGroup, rs: Seq<RowRecord>) -> bool {
    &&& g.file_rows@ == file_rows_of(rows_with_length(rs, g.length))
    &&& g.data_indices@ == data_indices_of(rows_with_length(rs, g.length))
}

/// `groups` is the length table of `rs`: one group per distinct length, in
/// order of first appearance.
pub open spec fn is_length_table(rs: Seq<RowRecord>, groups: Seq<LengthGroup>) -> bool {
    &&& groups.len() == distinct_lengths(rs).len()
    &&& forall|i: int|
        0 <= i < groups.len() ==> (#[trigger] groups[i]).length == distinct_lengths(rs)[i]
            && describes_length(groups[i], rs)
}

pub open spec fn distinct_group_lengths(groups: Seq<LengthGroup>) -> bool {
    forall|i: int, j: int|
        0 <= i < j < groups.len() ==> groups[i].length != groups[j].length
}

/// A length table has one group per length.
pub proof fn lemma_length_table_distinct(rs: Seq<RowRecord>, groups: Seq<LengthGroup>)
    requires
        is_length_table(rs, groups),
    ensures
        distinct_group_lengths(groups),
{
    lemma_distinct_lengths_unique(rs);
    assert forall|i: int, j: int| 0 <= i < j < groups.len() implies groups[i].length
        != groups[j].length by {
        assert(groups[i].length == distinct_lengths(rs)[i]);
        assert(groups[j].length == distinct_lengths(rs)[j]);
    }
}

proof fn lemma_distinct_lengths_step(rs: Seq<RowRecord>)
    requires
        rs.len() > 0,
    ensures
        forall|k: usize|
            distinct_lengths(rs).contains(k) <==> (distinct_lengths(rs.drop_last()).contains(k)
                || k == rs.last().char_count),
{
    let prev = distinct_lengths(rs.drop_last());
    let x = rs.last().char_count;
    if !prev.contains(x) {
        assert forall|k: usize|
            distinct_lengths(rs).contains(k) <==> (prev.contains(k) || k == x) by {
            if prev.contains(k) {
                let j = choose|j: int| 0 <= j < prev.len() && prev[j] == k;
                assert(prev.push(x)[j] == k);
            }
            if k == x {
                assert(prev.push(x)[prev.len() as int] == k);
            }
            if prev.push(x).contains(k) {
                let j = choose|j: int| 0 <= j < prev.len() + 1 && prev.push(x)[j] == k;
                if j < prev.len() {
                    assert(prev[j] == k);
                }
            }
        }
    }
}

pub proof fn lemma_distinct_lengths_unique(rs: Seq<RowRecord>)
    ensures
        distinct_lengths(rs).no_duplicates(),
        forall|k: usize|
            distinct_lengths(rs).contains(k) <==> exists|i: int|
                0 <= i < rs.len() && (#[trigger] rs[i]).char_count == k,
    decreases rs.len(),
{
    if rs.len() > 0 {
        let init = rs.drop_last();
        lemma_distinct_lengths_unique(init);
        lemma_distinct_lengths_step(rs);
        assert forall|k: usize|
            distinct_lengths(rs).contains(k) <==> exists|i: int|
                0 <= i < rs.len() && (#[trigger] rs[i]).char_count == k by {
            if distinct_lengths(rs).contains(k) {
                if distinct_lengths(init).contains(k) {
                    let i = choose|i: int| 0 <= i < init.len() && (#[trigger] init[i]).char_count == k;
                    assert(rs[i] == init[i]);
                } else {
                    assert(rs[rs.len() - 1].char_count == k);
                }
            }
            if exists|i: int| 0 <= i < rs.len() && (#[trigger] rs[i]).char_count == k {
                let i = choose|i: int| 0 <= i < rs.len() && (#[trigger] rs[i]).char_count == k;
                if i < rs.len() - 1 {
                    assert(init[i] == rs[i]);
                }
            }
        }
    }
}

/// Groups the rows by exact length, in one pass over the corpus.
pub fn build_length_table(records: &Vec<RowRecord>) -> (r: Vec<LengthGroup>)
    ensures
        is_length_table(records@, r@),
{
    let mut groups: Vec<LengthGroup> = Vec::new();
    let mut index: HashMap<usize, usize> = HashMap::new();
    let mut i: usize = 0;
    while i < records.len()
        invariant
            i <= records@.len(),
            is_length_table(records@.take(i as int), groups@),
            forall|k: usize|
                index@.contains_key(k) <==> distinct_lengths(records@.take(i as int)).contains(k),
            forall|k: usize|
                #[trigger] index@.contains_key(k) ==> index@[k] < groups@.len()
                    && groups@[index@[k] as int].length == k,
        decreases records@.len() - i,
    {
        let r = records[i];
        let ghost p = records@.take(i as int);
        let ghost q = records@.take(i + 1);
        proof {
            assert(q.drop_last() =~= p);
            assert(q.last() == r);
            lemma_distinct_lengths_unique(p);
            lemma_distinct_lengths_step(q);
        }
        match index.get(&r.char_count) {
            Some(gi) => {
                let gi: usize = *gi;
                let ghost before = groups@;
                groups[gi].file_rows.push(r.file_row);
                groups[gi].data_indices.push(r.data_index);
                proof {
                    assert forall|j: int| 0 <= j < groups@.len() implies (#[trigger] groups@[j]).length
                        == distinct_lengths(q)[j] && describes_length(groups@[j], q) by {
                        assert(distinct_lengths(q) == distinct_lengths(p));
                        if j != gi {
                            assert(groups@[j] == before[j]);
                            if before[j].length == r.char_count {
                                assert(distinct_lengths(p)[j] == distinct_lengths(p)[gi as int]);
                            }
                            assert(rows_with_length(q, groups@[j].length) == rows_with_length(
                                p,
                                groups@[j].length,
                            ));
                        } else {
                            assert(rows_with_length(q, r.char_count) == rows_with_length(
                                p,
                                r.char_count,
                            ).push(r));
                            assert(file_rows_of(rows_with_length(q, r.char_count)) =~= file_rows_of(
                                rows_with_length(p, r.char_count),
                            ).push(r.file_row));
                            assert(data_indices_of(rows_with_length(q, r.char_count))
                                =~= data_indices_of(rows_with_length(p, r.char_count)).push(
                                r.data_index,
                            ));
                        }
                    }
                }
            },
            None => {
                let mut file_rows: Vec<usize> = Vec::new();
                file_rows.push(r.file_row);
                let mut data_indices: Vec<isize> = Vec::new();
                data_indices.push(r.data_index);
                let ghost before = groups@;
                let pos = groups.len();
                groups.push(LengthGroup { length: r.char_count, file_rows, data_indices });
                index.insert(r.char_count, pos);
                proof {
                    assert(distinct_lengths(q) == distinct_lengths(p).push(r.char_count));
                    assert forall|j: int| 0 <= j < groups@.len() implies (#[trigger] groups@[j]).length
                        == distinct_lengths(q)[j] && describes_length(groups@[j], q) by {
                        if j < before.len() {
                            assert(groups@[j] == before[j]);
                            assert(distinct_lengths(p).contains(before[j].length));
                            assert(rows_with_length(q, groups@[j].length) == rows_with_length(
                                p,
                                groups@[j].length,
                            ));
                        } else {
                            lemma_rows_with_absent_length(p, r.char_count);
                            assert(file_rows_of(rows_with_length(q, r.char_count)) =~= seq![
                                r.file_row,
                            ]);
                            assert(data_indices_of(rows_with_length(q, r.char_count)) =~= seq![
                                r.data_index,
                            ]);
                        }
                    }
                }
            },
        }
        i = i + 1;
    }
    assert(records@.take(records@.len() as int) =~= records@);
    groups
}

proof fn lemma_rows_with_absent_length(rs: Seq<RowRecord>, len: usize)
    requires
        !distinct_lengths(rs).contains(len),
    ensures
        rows_with_length(rs, len) == Seq::<RowRecord>::empty(),
    decreases rs.len(),
{
    if rs.len() > 0 {
        lemma_distinct_lengths_step(rs);
        lemma_rows_with_absent_length(rs.drop_last(), len);
    }
}

/// The rows of one page bucket, gathered from the length groups whose length
/// falls in it, group after group in length-table order.
pub struct PageGroup {
    pub bucket: usize,
    pub file_rows: Vec<usize>,
    pub data_indices: Vec<isize>,
}

impl PageGroup {
    /// The number of rows in this bucket.
    pub fn count(&self) -> (r: usize)
        ensures
            r == self.file_rows@.len(),
    {
        self.file_rows.len()
    }
}

/// The page bucket of a length: `ceil(char_count / page_size)`.
pub open spec fn bucket_of(char_count: int, page_size: int) -> int {
    (char_count + page_size - 1) / page_size
}

/// The page bucket of a length: the number of pages of `page_size`
/// characters it takes, rounded up; 0 for an empty row.
pub fn page_bucket(char_count: usize, page_size: usize) -> (r: usize)
    requires
        page_size > 0,
    ensures
        r == bucket_of(char_count as int, page_size as int),
{
    let q = char_count / page_size;
    let rem = char_count % page_size;
    proof {
        let c = char_count as int;
        let p = page_size as int;
        assert(c == q * p + rem) by (nonlinear_arith)
            requires
                p > 0,
                q == c / p,
                rem == c % p,
        ;
        assert((c + p - 1) / p == q + if rem == 0 {
            0int
        } else {
            1int
        }) by (nonlinear_arith)
            requires
                p > 0,
                c == q * p + rem,
                0 <= rem < p,
        ;
        assert(q < usize::MAX || rem == 0) by (nonlinear_arith)
            requires
                p > 0,
                c == q * p + rem,
                0 <= rem < p,
                c <= usize::MAX,
        ;
    }
    if rem == 0 {
        q
    } else {
        q + 1
    }
}

/// The line numbers, in length-table order, of the rows whose length falls in
/// bucket `b`.
pub open spec fn bucket_file_rows(gs: Seq<LengthGroup>, page_size: int, b: int) -> Seq<usize>
    decreases gs.len(),
{
    if gs.len() == 0 {
        Seq::empty()
    } else {
        let prev = bucket_file_rows(gs.drop_last(), page_size, b);
        if bucket_of(gs.last().length as int, page_size) == b {
            prev + gs.last().file_rows@
        } else {
            prev
        }
    }
}

/// The data indices that go with `bucket_file_rows`.
pub open spec fn bucket_data_indices(gs: Seq<LengthGroup>, page_size: int, b: int) -> Seq<isize>
    decreases gs.len(),
{
    if gs.len() == 0 {
        Seq::empty()
    } else {
        let prev = bucket_data_indices(gs.drop_last(), page_size, b);
        if bucket_of(gs.last().length as int, page_size) == b {
            prev + gs.last().data_indices@
        } else {
            prev
        }
    }
}

/// Some group's length falls in bucket `b`.
pub open spec fn has_bucket(gs: Seq<LengthGroup>, page_size: int, b: int) -> bool {
    exists|j: int| 0 <= j < gs.len() && bucket_of((#[trigger] gs[j]).length as int, page_size) == b
}

/// `pages` is the page table of `gs`: one entry per bucket in use, buckets
/// strictly ascending, each with the rows of its bucket.
pub open spec fn is_page_table(gs: Seq<LengthGroup>, page_size: int, pages: Seq<PageGroup>) -> bool {
    &&& forall|i: int, j: int| 0 <= i < j < pages.len() ==> pages[i].bucket < pages[j].bucket
    &&& forall|i: int|
        0 <= i < pages.len() ==> has_bucket(gs, page_size, (#[trigger] pages[i]).bucket as int)
            && pages[i].file_rows@ == bucket_file_rows(gs, page_size, pages[i].bucket as int)
            && pages[i].data_indices@ == bucket_data_indices(gs, page_size, pages[i].bucket as int)
    &&& forall|b: int|
        #[trigger] has_bucket(gs, page_size, b) ==> exists|i: int|
            0 <= i < pages.len() && (#[trigger] pages[i]).bucket == b
}

fn append_all<T: Copy>(dst: &mut Vec<T>, src: &Vec<T>)
    ensures
        final(dst)@ == old(dst)@ + src@,
{
    let mut i: usize = 0;
    while i < src.len()
        invariant
            i <= src@.len(),
            dst@ == old(dst)@ + src@.take(i as int),
        decreases src@.len() - i,
    {
        dst.push(src[i]);
        i = i + 1;
        proof {
            assert(dst@ =~= old(dst)@ + src@.take(i as int));
        }
    }
    assert(src@.take(src@.len() as int) =~= src@);
}

/// Regroups the length table by page bucket, buckets ascending.
pub fn build_page_table(groups: &Vec<LengthGroup>, page_size: usize) -> (r: Vec<PageGroup>)
    requires
        page_size > 0,
    ensures
        is_page_table(groups@, page_size as int, r@),
{
    let ghost ps = page_size as int;
    let mut pages: Vec<PageGroup> = Vec::new();
    let mut i: usize = 0;
    while i < groups.len()
        invariant
            i <= groups@.len(),
            ps == page_size as int,
            page_size > 0,
            is_page_table(groups@.take(i as int), ps, pages@),
        decreases groups@.len() - i,
    {
        let g = &groups[i];
        let b = page_bucket(g.length, page_size);
        let ghost p = groups@.take(i as int);
        let ghost q = groups@.take(i + 1);
        proof {
            assert(q.drop_last() =~= p);
            assert(q.last() == *g);
        }
        let mut j: usize = 0;
        while j < pages.len() && pages[j].bucket < b
            invariant
                j <= pages@.len(),
                forall|k: int| 0 <= k < j ==> pages@[k].bucket < b,
            decreases pages@.len() - j,
        {
            j = j + 1;
        }
        let ghost before = pages@;
        if j < pages.len() && pages[j].bucket == b {
            append_all(&mut pages[j].file_rows, &g.file_rows);
            append_all(&mut pages[j].data_indices, &g.data_indices);
            proof {
                assert forall|k: int| 0 <= k < pages@.len() implies has_bucket(
                    q,
                    ps,
                    (#[trigger] pages@[k]).bucket as int,
                ) && pages@[k].file_rows@ == bucket_file_rows(q, ps, pages@[k].bucket as int)
                    && pages@[k].data_indices@ == bucket_data_indices(
                    q,
                    ps,
                    pages@[k].bucket as int,
                ) by {
                    let jj = choose|jj: int|
                        0 <= jj < p.len() && bucket_of((#[trigger] p[jj]).length as int, ps)
                            == before[k].bucket;
                    assert(q[jj] == p[jj]);
                    if k != j {
                        assert(pages@[k] == before[k]);
                        assert(before[k].bucket != b);
                    }
                }
                assert forall|bb: int| #[trigger] has_bucket(q, ps, bb) implies exists|k: int|
                    0 <= k < pages@.len() && (#[trigger] pages@[k]).bucket == bb by {
                    let jj = choose|jj: int|
                        0 <= jj < q.len() && bucket_of((#[trigger] q[jj]).length as int, ps) == bb;
                    if jj < p.len() {
                        assert(p[jj] == q[jj]);
                        assert(has_bucket(p, ps, bb));
                        let k = choose|k: int| 0 <= k < before.len() && (#[trigger] before[k]).bucket == bb;
                        assert(pages@[k].bucket == bb);
                    } else {
                        assert(pages@[j as int].bucket == bb);
                    }
                }
            }
        } else {
            let mut file_rows: Vec<usize> = Vec::new();
            append_all(&mut file_rows, &g.file_rows);
            let mut data_indices: Vec<isize> = Vec::new();
            append_all(&mut data_indices, &g.data_indices);
            pages.insert(j, PageGroup { bucket: b, file_rows, data_indices });
            proof {
                assert(!has_bucket(p, ps, b as int)) by {
                    if has_bucket(p, ps, b as int) {
                        let k = choose|k: int| 0 <= k < before.len() && (#[trigger] before[k]).bucket == b;
                        if k < j {
                            assert(before[k].bucket < b);
                        } else {
                            assert(before[j as int].bucket <= before[k].bucket);
                        }
                    }
                }
                lemma_bucket_rows_absent(p, ps, b as int);
                assert(bucket_file_rows(q, ps, b as int) =~= g.file_rows@);
                assert(bucket_data_indices(q, ps, b as int) =~= g.data_indices@);
                assert forall|k: int| 0 <= k < pages@.len() implies has_bucket(
                    q,
                    ps,
                    (#[trigger] pages@[k]).bucket as int,
                ) && pages@[k].file_rows@ == bucket_file_rows(q, ps, pages@[k].bucket as int)
                    && pages@[k].data_indices@ == bucket_data_indices(
                    q,
                    ps,
                    pages@[k].bucket as int,
                ) by {
                    if k == j {
                        assert(bucket_of(q[i as int].length as int, ps) == b);
                    } else {
                        let kk = if k < j {
                            k
                        } else {
                            k - 1
                        };
                        assert(pages@[k] == before[kk]);
                        let jj = choose|jj: int|
                            0 <= jj < p.len() && bucket_of((#[trigger] p[jj]).length as int, ps)
                                == before[kk].bucket;
                        assert(q[jj] == p[jj]);
                        assert(before[kk].bucket != b);
                    }
                }
                assert forall|a: int, c: int| 0 <= a < c < pages@.len() implies pages@[a].bucket
                    < pages@[c].bucket by {
                    if c == j {
                        assert(pages@[a] == before[a]);
                    } else if a == j {
                        assert(pages@[c] == before[c - 1]);
                        assert(before[j as int].bucket >= b);
                    } else if c < j {
                        assert(pages@[a] == before[a]);
                        assert(pages@[c] == before[c]);
                    } else if a < j {
                        assert(pages@[a] == before[a]);
                        assert(pages@[c] == before[c - 1]);
                    } else {
                        assert(pages@[a] == before[a - 1]);
                        assert(pages@[c] == before[c - 1]);
                    }
                }
                assert forall|bb: int| #[trigger] has_bucket(q, ps, bb) implies exists|k: int|
                    0 <= k < pages@.len() && (#[trigger] pages@[k]).bucket == bb by {
                    let jj = choose|jj: int|
                        0 <= jj < q.len() && bucket_of((#[trigger] q[jj]).length as int, ps) == bb;
                    if jj < p.len() {
                        assert(p[jj] == q[jj]);
                        assert(has_bucket(p, ps, bb));
                        let k = choose|k: int| 0 <= k < before.len() && (#[trigger] before[k]).bucket == bb;
                        if k < j {
                            assert(pages@[k].bucket == bb);
                        } else {
                            assert(pages@[k + 1].bucket == bb);
                        }
                    } else {
                        assert(pages@[j as int].bucket == bb);
                    }
                }
            }
        }
        i = i + 1;
    }
    assert(groups@.take(groups@.len() as int) =~= groups@);
    pages
}

proof fn lemma_bucket_rows_absent(gs: Seq<LengthGroup>, page_size: int, b: int)
    requires
        !has_bucket(gs, page_size, b),
    ensures
        bucket_file_rows(gs, page_size, b) == Seq::<usize>::empty(),
        bucket_data_indices(gs, page_size, b) == Seq::<isize>::empty(),
    decreases gs.len(),
{
    if gs.len() > 0 {
        let init = gs.drop_last();
        assert(!has_bucket(init, page_size, b)) by {
            if has_bucket(init, page_size, b) {
                let j = choose|j: int|
                    0 <= j < init.len() && bucket_of((#[trigger] init[j]).length as int, page_size) == b;
                assert(gs[j] == init[j]);
            }
        }
        assert(bucket_of(gs[gs.len() - 1].length as int, page_size) != b);
        lemma_bucket_rows_absent(init, page_size, b);
    }
}

} // verus!
