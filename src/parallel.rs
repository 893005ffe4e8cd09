//! Chunked mode: the lines are split into contiguous chunks, each chunk is
//! counted on its own (by any worker, in any order), and the aggregator joins
//! the results and restores file order.
use vstd::prelude::*;
use crate::rows::{
    Corpus, RowEntry, RowRecord, SourceLine, corpus_records, entries_of, entry_of, ingested,
    lemma_ingested_bounds, lemma_ingested_strictly_increasing, lemma_non_header_count_bound,
    lemma_record_entries_of_indices, lemma_total_chars_bound, lemma_with_data_indices_push,
    line_view, lines_view, non_header_count, record_entries, total_chars, with_data_indices,
};

verus! {

broadcast use vstd::seq_lib::group_to_multiset_ensures;

/// The chunk length for `n` lines and `w` workers: `ceil(n / w)`, at least 1.
pub open spec fn chunk_len(n: int, w: int) -> int {
    if n == 0 {
        1
    } else {
        (n + w - 1) / w
    }
}

/// The number of chunks of length `size` that cover `n` lines.
pub open spec fn chunk_count(n: int, size: int) -> int {
    (n + size - 1) / size
}

pub open spec fn min_int(a: int, b: int) -> int {
    if a <= b {
        a
    } else {
        b
    }
}

/// The `i`-th chunk of length `size` of `s`; the last one may be shorter.
pub open spec fn chunk_of<A>(s: Seq<A>, size: int, i: int) -> Seq<A> {
    s.subrange(i * size, min_int((i + 1) * size, s.len() as int))
}

/// What a worker hands back: the entries of its chunk, in chunk order, and
/// their character total.
pub struct ChunkResult {
    pub entries: Vec<RowEntry>,
    pub char_total: u128,
}

pub open spec fn chunk_entries(rs: Seq<ChunkResult>) -> Seq<Seq<RowEntry>> {
    rs.map_values(|c: ChunkResult| c.entries@)
}

/// The sum of the workers' partial character totals.
pub open spec fn partial_sum(rs: Seq<ChunkResult>) -> nat
    decreases rs.len(),
{
    if rs.len() == 0 {
        0
    } else {
        partial_sum(rs.drop_last()) + rs.last().char_total as nat
    }
}

pub open spec fn sorted_by_file_row(s: Seq<RowEntry>) -> bool {
    forall|i: int, j: int| 0 <= i < j < s.len() ==> s[i].file_row <= s[j].file_row
}

pub open spec fn strictly_by_file_row(s: Seq<RowEntry>) -> bool {
    forall|i: int, j: int| 0 <= i < j < s.len() ==> s[i].file_row < s[j].file_row
}

/// `records` is what the aggregator makes of the joined entries: the same
/// entries sorted by line number, each given its data index.
pub open spec fn is_aggregation(joined: Seq<RowEntry>, records: Seq<RowRecord>) -> bool {
    let es = record_entries(records);
    &&& sorted_by_file_row(es)
    &&& es.to_multiset() == joined.to_multiset()
    &&& records == with_data_indices(es)
}

/// Relies on `slice::sort_by_key`: the slice comes back ordered by the key,
/// and sorting only reorders the elements.
#[verifier::external_body]
fn sort_by_file_row(v: &mut Vec<RowEntry>)
    ensures
        final(v)@.to_multiset() == old(v)@.to_multiset(),
        sorted_by_file_row(final(v)@),
{
    v.sort_by_key(|e| e.file_row);
}

proof fn lemma_ceil_div(n: int, size: int, k: int)
    requires
        size > 0,
        n >= 0,
        k >= 0,
        k * size >= n,
        k == 0 || (k - 1) * size < n,
    ensures
        k == (n + size - 1) / size,
{
    let q = (n + size - 1) / size;
    let r = (n + size - 1) % size;
    assert(n + size - 1 == q * size + r && 0 <= r < size) by (nonlinear_arith)
        requires
            size > 0,
            q == (n + size - 1) / size,
            r == (n + size - 1) % size,
    ;
    assert(q <= k) by (nonlinear_arith)
        requires
            size > 0,
            n + size - 1 == q * size + r,
            0 <= r < size,
            k * size >= n,
    ;
    if k > 0 {
        assert(k <= q) by (nonlinear_arith)
            requires
                size > 0,
                n + size - 1 == q * size + r,
                0 <= r < size,
                (k - 1) * size < n,
        ;
    } else {
        assert(n == 0) by (nonlinear_arith)
            requires
                k == 0,
                k * size >= n,
                n >= 0,
        ;
        assert(q == 0) by (nonlinear_arith)
            requires
                size > 0,
                n == 0,
                q == (n + size - 1) / size,
        ;
    }
}

/// Splits the lines into contiguous chunks of `ceil(n / worker_count)` lines
/// (the last may be shorter), keeping file order.
pub fn partition_rows(lines: &Vec<SourceLine>, worker_count: usize) -> (r: Vec<Vec<SourceLine>>)
    requires
        worker_count >= 1,
    ensures
        r@.len() == chunk_count(lines@.len() as int, chunk_len(lines@.len() as int, worker_count as int)),
        r@.len() <= worker_count,
        forall|i: int|
            0 <= i < r@.len() ==> lines_view(#[trigger] r@[i]@) == chunk_of(
                lines_view(lines@),
                chunk_len(lines@.len() as int, worker_count as int),
                i,
            ),
{
    let n = lines.len();
    let size: usize = if n == 0 {
        1
    } else if n % worker_count == 0 {
        n / worker_count
    } else {
        assert(n / worker_count < n) by (nonlinear_arith)
            requires
                worker_count >= 2,
                n > 0,
        ;
        n / worker_count + 1
    };
    let ghost w = worker_count as int;
    assert(size == chunk_len(n as int, w) && size >= 1 && size * w >= n) by {
        if n > 0 {
            assert(n == (n / worker_count) * w + n % worker_count) by (nonlinear_arith)
                requires
                    w == worker_count as int,
                    w >= 1,
            ;
            assert((n + w - 1) / w == n / worker_count + if n % worker_count == 0 {
                0int
            } else {
                1int
            }) by (nonlinear_arith)
                requires
                    w == worker_count as int,
                    w >= 1,
                    n == (n / worker_count) * w + n % worker_count,
                    0 <= n % worker_count < w,
            ;
            assert(size * w >= n) by (nonlinear_arith)
                requires
                    n == (n / worker_count) * w + n % worker_count,
                    0 <= n % worker_count < w,
                    size == n / worker_count + if n % worker_count == 0 {
                        0int
                    } else {
                        1int
                    },
            ;
            if n % worker_count == 0 {
                let q = (n / worker_count) as int;
                assert(q >= 1) by (nonlinear_arith)
                    requires
                        n > 0,
                        q >= 0,
                        n == q * w,
                ;
            }
        }
    }
    let ghost view = lines_view(lines@);
    let mut chunks: Vec<Vec<SourceLine>> = Vec::new();
    let mut start: usize = 0;
    assert(chunks@.len() * size == 0);
    while start < n
        invariant
            n == lines@.len(),
            view == lines_view(lines@),
            size == chunk_len(n as int, w),
            size >= 1,
            size * w >= n,
            start <= n,
            start == min_int(chunks@.len() * size, n as int),
            chunks@.len() == 0 || (chunks@.len() - 1) * size < n,
            forall|i: int|
                0 <= i < chunks@.len() ==> lines_view(#[trigger] chunks@[i]@) == chunk_of(
                    view,
                    size as int,
                    i,
                ),
        decreases n - start,
    {
        let end: usize = if n - start < size {
            n
        } else {
            start + size
        };
        let ghost k = chunks@.len() as int;
        assert(start == k * size) by {
            if k * size > n {
                assert(start == n);
            }
        }
        assert((k + 1) * size == k * size + size) by (nonlinear_arith);
        let mut chunk: Vec<SourceLine> = Vec::new();
        let mut j: usize = start;
        while j < end
            invariant
                start <= j <= end <= n,
                n == lines@.len(),
                view == lines_view(lines@),
                lines_view(chunk@) == view.subrange(start as int, j as int),
            decreases end - j,
        {
            let line = SourceLine { file_row: lines[j].file_row, text: lines[j].text.clone() };
            let ghost before = chunk@;
            chunk.push(line);
            proof {
                assert(lines_view(chunk@) =~= lines_view(before).push(line_view(line)));
                assert(view.subrange(start as int, j + 1) =~= view.subrange(start as int, j as int).push(
                    view[j as int],
                ));
            }
            j = j + 1;
        }
        assert(end == min_int((k + 1) * size, n as int));
        let ghost prev = chunks@;
        chunks.push(chunk);
        start = end;
        proof {
            assert(k * size < n);
            if (k + 1) * size > n {
                assert(start == n);
            }
            assert forall|i: int| 0 <= i < chunks@.len() implies lines_view(
                #[trigger] chunks@[i]@,
            ) == chunk_of(view, size as int, i) by {
                if i < k {
                    assert(chunks@[i] == prev[i]);
                }
            }
        }
    }
    let ghost k = chunks@.len() as int;
    proof {
        assert(k * size >= n) by {
            if k * size < n {
                assert(start == k * size);
            }
        }
        lemma_ceil_div(n as int, size as int, k);
        if k > 0 {
            assert(k <= w) by (nonlinear_arith)
                requires
                    (k - 1) * size < n,
                    size * w >= n,
                    size >= 1,
            ;
        }
    }
    chunks
}

/// Counts the characters of each line of one chunk, independently of every
/// other chunk.
pub fn process_chunk(chunk: &Vec<SourceLine>) -> (r: ChunkResult)
    ensures
        r.entries@ == entries_of(lines_view(chunk@)),
        r.char_total == total_chars(r.entries@),
{
    let ghost view = lines_view(chunk@);
    let mut entries: Vec<RowEntry> = Vec::new();
    let mut char_total: u128 = 0;
    let mut i: usize = 0;
    while i < chunk.len()
        invariant
            i <= chunk@.len(),
            view == lines_view(chunk@),
            entries@ == entries_of(view.take(i as int)),
            char_total == total_chars(entries@),
        decreases chunk@.len() - i,
    {
        let n = chunk[i].text.as_str().unicode_len();
        let e = RowEntry { file_row: chunk[i].file_row, char_count: n };
        proof {
            lemma_total_chars_bound(entries@);
            assert(entries@.len() * (usize::MAX as nat) + usize::MAX as nat <= u128::MAX)
                by (nonlinear_arith)
                requires
                    entries@.len() < usize::MAX,
                    usize::MAX <= u64::MAX,
            ;
        }
        let ghost before = entries@;
        entries.push(e);
        char_total = char_total + n as u128;
        proof {
            assert(entries@.drop_last() =~= before);
            assert(view.take(i + 1) =~= view.take(i as int).push(view[i as int]));
            assert(entries_of(view.take(i + 1)) =~= entries_of(view.take(i as int)).push(
                entry_of(view[i as int]),
            ));
        }
        i = i + 1;
    }
    assert(view.take(chunk@.len() as int) =~= view);
    ChunkResult { entries, char_total }
}

pub proof fn lemma_total_chars_concat(a: Seq<RowEntry>, b: Seq<RowEntry>)
    ensures
        total_chars(a + b) == total_chars(a) + total_chars(b),
    decreases b.len(),
{
    if b.len() > 0 {
        lemma_total_chars_concat(a, b.drop_last());
        assert((a + b).drop_last() =~= a + b.drop_last());
    }
}

proof fn lemma_total_chars_remove(s: Seq<RowEntry>, j: int)
    requires
        0 <= j < s.len(),
    ensures
        total_chars(s) == total_chars(s.remove(j)) + s[j].char_count,
    decreases s.len(),
{
    if j == s.len() - 1 {
        assert(s.remove(j) =~= s.drop_last());
    } else {
        lemma_total_chars_remove(s.drop_last(), j);
        assert(s.remove(j).drop_last() =~= s.drop_last().remove(j));
    }
}

/// The character total does not depend on the order of the entries.
pub proof fn lemma_total_chars_permutation(a: Seq<RowEntry>, b: Seq<RowEntry>)
    requires
        a.to_multiset() == b.to_multiset(),
    ensures
        total_chars(a) == total_chars(b),
    decreases a.len(),
{
    if a.len() > 0 {
        let x = a.last();
        let a1 = a.drop_last();
        assert(a =~= a1.push(x));
        assert(b.to_multiset().count(x) > 0);
        assert(b.contains(x));
        let j = choose|j: int| 0 <= j < b.len() && b[j] == x;
        assert(b.remove(j).to_multiset() =~= a1.to_multiset());
        lemma_total_chars_permutation(a1, b.remove(j));
        lemma_total_chars_remove(b, j);
    } else {
        assert(b.to_multiset().len() == b.len());
        assert(b.len() == 0);
    }
}

/// A sequence with strictly rising line numbers is the only ordering of its
/// entries by line number.
pub proof fn lemma_sorted_permutation_unique(a: Seq<RowEntry>, b: Seq<RowEntry>)
    requires
        strictly_by_file_row(a),
        sorted_by_file_row(b),
        a.to_multiset() == b.to_multiset(),
    ensures
        a == b,
    decreases a.len(),
{
    broadcast use vstd::multiset::group_multiset_axioms;

    assert(a.to_multiset().len() == a.len());
    assert(b.to_multiset().len() == b.len());
    if a.len() == 0 {
        assert(a =~= b);
    } else {
        assert(b.to_multiset().count(a[0]) > 0);
        assert(b.contains(a[0]));
        assert(a.to_multiset().count(b[0]) > 0);
        assert(a.contains(b[0]));
        let i = choose|i: int| 0 <= i < a.len() && a[i] == b[0];
        let j = choose|j: int| 0 <= j < b.len() && b[j] == a[0];
        assert(b[0].file_row <= b[j].file_row);
        if i != 0 {
            assert(a[0].file_row < a[i].file_row);
        }
        assert(a[0] == b[0]);
        assert(a.remove(0) =~= a.drop_first());
        assert(b.remove(0) =~= b.drop_first());
        assert(a.drop_first().to_multiset() == b.drop_first().to_multiset());
        lemma_sorted_permutation_unique(a.drop_first(), b.drop_first());
        assert forall|k: int| 0 <= k < a.len() implies a[k] == b[k] by {
            if k > 0 {
                assert(a[k] == a.drop_first()[k - 1]);
                assert(b[k] == b.drop_first()[k - 1]);
            }
        }
        assert(a =~= b);
    }
}

/// Joins the workers' results, sorts the rows by line number and assigns
/// data indices. The grand total is the sum of the partial totals.
pub fn aggregate(results: Vec<ChunkResult>) -> (r: Corpus)
    requires
        forall|i: int|
            0 <= i < results@.len() ==> (#[trigger] results@[i]).char_total == total_chars(
                results@[i].entries@,
            ),
        chunk_entries(results@).flatten().len() <= isize::MAX,
    ensures
        is_aggregation(chunk_entries(results@).flatten(), r.records@),
        r.total_chars == partial_sum(results@),
        r.total_chars == total_chars(record_entries(r.records@)),
{
    broadcast use Seq::lemma_flatten_push;

    let ghost parts = chunk_entries(results@);
    let mut joined: Vec<RowEntry> = Vec::new();
    let mut sum: u128 = 0;
    let mut i: usize = 0;
    while i < results.len()
        invariant
            i <= results@.len(),
            parts == chunk_entries(results@),
            parts.flatten().len() <= isize::MAX,
            forall|k: int|
                0 <= k < results@.len() ==> (#[trigger] results@[k]).char_total == total_chars(
                    results@[k].entries@,
                ),
            joined@ == parts.take(i as int).flatten(),
            sum == partial_sum(results@.take(i as int)),
            sum == total_chars(joined@),
        decreases results@.len() - i,
    {
        proof {
            assert(parts.take(i + 1) =~= parts.take(i as int).push(parts[i as int]));
            assert(results@.take(i + 1).drop_last() =~= results@.take(i as int));
            lemma_flatten_prefix_len(parts, i + 1);
            parts.take(i as int).lemma_flatten_push(parts[i as int]);
            assert(parts[i as int] == results@[i as int].entries@);
        }
        let chunk = &results[i].entries;
        let mut j: usize = 0;
        while j < chunk.len()
            invariant
                i < results@.len(),
                chunk == results@[i as int].entries,
                j <= chunk@.len(),
                joined@ == parts.take(i as int).flatten() + chunk@.take(j as int),
                parts.take(i + 1).flatten() == parts.take(i as int).flatten() + chunk@,
                parts.take(i + 1).flatten().len() <= isize::MAX,
            decreases chunk@.len() - j,
        {
            let ghost before = joined@;
            joined.push(chunk[j]);
            proof {
                assert(chunk@.take(j + 1) =~= chunk@.take(j as int).push(chunk@[j as int]));
                assert(joined@ =~= parts.take(i as int).flatten() + chunk@.take(j + 1));
            }
            j = j + 1;
        }
        proof {
            assert(chunk@.take(chunk@.len() as int) =~= chunk@);
            lemma_total_chars_concat(parts.take(i as int).flatten(), chunk@);
            lemma_total_chars_bound(joined@);
            assert(joined@.len() * (usize::MAX as nat) <= u128::MAX) by (nonlinear_arith)
                requires
                    joined@.len() <= isize::MAX,
                    isize::MAX <= usize::MAX <= u64::MAX,
            ;
        }
        sum = sum + results[i].char_total;
        i = i + 1;
    }
    assert(parts.take(results@.len() as int) =~= parts);
    assert(results@.take(results@.len() as int) =~= results@);
    let ghost unsorted = joined@;
    sort_by_file_row(&mut joined);
    proof {
        lemma_total_chars_permutation(unsorted, joined@);
        assert(unsorted.to_multiset().len() == unsorted.len());
        assert(joined@.to_multiset().len() == joined@.len());
    }
    let mut records: Vec<RowRecord> = Vec::new();
    let mut data_rows: usize = 0;
    let mut k: usize = 0;
    while k < joined.len()
        invariant
            k <= joined@.len(),
            joined@.len() <= isize::MAX,
            records@ == with_data_indices(joined@.take(k as int)),
            data_rows == non_header_count(joined@.take(k as int)),
        decreases joined@.len() - k,
    {
        let e = joined[k];
        proof {
            lemma_non_header_count_bound(joined@.take(k as int));
            lemma_with_data_indices_push(joined@.take(k as int), e);
            assert(joined@.take(k + 1) =~= joined@.take(k as int).push(e));
            assert(joined@.take(k as int).push(e).drop_last() =~= joined@.take(k as int));
        }
        let data_index: isize = if e.file_row == 1 {
            -1
        } else {
            data_rows as isize
        };
        records.push(RowRecord { file_row: e.file_row, data_index, char_count: e.char_count });
        if e.file_row != 1 {
            data_rows = data_rows + 1;
        }
        k = k + 1;
    }
    assert(joined@.take(joined@.len() as int) =~= joined@);
    proof {
        lemma_record_entries_of_indices(joined@);
    }
    Corpus { records, total_chars: sum }
}

proof fn lemma_flatten_prefix_len(parts: Seq<Seq<RowEntry>>, k: int)
    requires
        0 <= k <= parts.len(),
    ensures
        parts.take(k).flatten().len() <= parts.flatten().len(),
    decreases parts.len() - k,
{
    broadcast use Seq::lemma_flatten_push;

    if k < parts.len() {
        lemma_flatten_prefix_len(parts, k + 1);
        assert(parts.take(k + 1) =~= parts.take(k).push(parts[k]));
    } else {
        assert(parts.take(k) =~= parts);
    }
}

/// `chunks` is the split of `lines` that `partition_rows` makes for `w` workers.
pub open spec fn is_partition(lines: Seq<(int, Seq<char>)>, w: int, chunks: Seq<Vec<SourceLine>>) -> bool {
    let size = chunk_len(lines.len() as int, w);
    &&& chunks.len() == chunk_count(lines.len() as int, size)
    &&& forall|i: int|
        0 <= i < chunks.len() ==> lines_view(#[trigger] chunks[i]@) == chunk_of(lines, size, i)
}

/// `results[i]` is what `process_chunk` makes of `chunks[i]`.
pub open spec fn is_counted(chunks: Seq<Vec<SourceLine>>, results: Seq<ChunkResult>) -> bool {
    &&& results.len() == chunks.len()
    &&& forall|i: int|
        0 <= i < results.len() ==> (#[trigger] results[i]).entries@ == entries_of(
            lines_view(chunks[i]@),
        )
}

proof fn lemma_partial_sum_flatten(results: Seq<ChunkResult>)
    requires
        forall|i: int|
            0 <= i < results.len() ==> (#[trigger] results[i]).char_total == total_chars(
                results[i].entries@,
            ),
    ensures
        partial_sum(results) == total_chars(chunk_entries(results).flatten()),
    decreases results.len(),
{
    if results.len() > 0 {
        let init = results.drop_last();
        lemma_partial_sum_flatten(init);
        assert(chunk_entries(results) =~= chunk_entries(init).push(results.last().entries@));
        chunk_entries(init).lemma_flatten_push(results.last().entries@);
        lemma_total_chars_concat(chunk_entries(init).flatten(), results.last().entries@);
    } else {
        assert(chunk_entries(results) =~= Seq::<Seq<RowEntry>>::empty());
    }
}

/// However the lines were split among workers, the sum of the workers'
/// partial totals equals the character total of the aggregated corpus.
pub proof fn lemma_partial_sums_equal_total(results: Seq<ChunkResult>, records: Seq<RowRecord>)
    requires
        forall|i: int|
            0 <= i < results.len() ==> (#[trigger] results[i]).char_total == total_chars(
                results[i].entries@,
            ),
        is_aggregation(chunk_entries(results).flatten(), records),
    ensures
        partial_sum(results) == total_chars(record_entries(records)),
{
    lemma_partial_sum_flatten(results);
    lemma_total_chars_permutation(chunk_entries(results).flatten(), record_entries(records));
}

proof fn lemma_ceil_div_bounds(n: int, size: int)
    requires
        n >= 0,
        size >= 1,
    ensures
        chunk_count(n, size) * size >= n,
        chunk_count(n, size) >= 0,
        chunk_count(n, size) == 0 || (chunk_count(n, size) - 1) * size < n,
{
    let q = (n + size - 1) / size;
    let r = (n + size - 1) % size;
    assert(n + size - 1 == q * size + r && 0 <= r < size) by (nonlinear_arith)
        requires
            size > 0,
            q == (n + size - 1) / size,
            r == (n + size - 1) % size,
    ;
    assert(q * size >= n && q >= 0 && (q == 0 || (q - 1) * size < n)) by (nonlinear_arith)
        requires
            size > 0,
            n >= 0,
            n + size - 1 == q * size + r,
            0 <= r < size,
    ;
}

proof fn lemma_chunks_flatten(e: Seq<RowEntry>, parts: Seq<Seq<RowEntry>>, size: int, k: int)
    requires
        size >= 1,
        0 <= k <= parts.len(),
        (parts.len() - 1) * size < e.len() || parts.len() == 0,
        forall|i: int| 0 <= i < parts.len() ==> #[trigger] parts[i] == chunk_of(e, size, i),
    ensures
        parts.take(k).flatten() == e.take(min_int(k * size, e.len() as int)),
    decreases k,
{
    if k == 0 {
        assert(parts.take(0) =~= Seq::<Seq<RowEntry>>::empty());
        assert(e.take(0) =~= Seq::<RowEntry>::empty());
    } else {
        lemma_chunks_flatten(e, parts, size, k - 1);
        assert(parts.take(k) =~= parts.take(k - 1).push(parts[k - 1]));
        parts.take(k - 1).lemma_flatten_push(parts[k - 1]);
        assert((k - 1) * size < e.len()) by (nonlinear_arith)
            requires
                k <= parts.len(),
                (parts.len() - 1) * size < e.len(),
                size >= 1,
                k >= 1,
        ;
        assert(k * size == (k - 1) * size + size) by (nonlinear_arith);
        assert(e.take((k - 1) * size) + chunk_of(e, size, k - 1) =~= e.take(
            min_int(k * size, e.len() as int),
        ));
    }
}

/// Joined in chunk order, the entries of the counted chunks are the entries
/// of all the lines.
pub proof fn lemma_counted_chunks_join(
    lines: Seq<(int, Seq<char>)>,
    w: int,
    chunks: Seq<Vec<SourceLine>>,
    results: Seq<ChunkResult>,
)
    requires
        w >= 1,
        is_partition(lines, w, chunks),
        is_counted(chunks, results),
    ensures
        chunk_entries(results).flatten() == entries_of(lines),
{
    let e = entries_of(lines);
    let n = lines.len() as int;
    let size = chunk_len(n, w);
    let parts = chunk_entries(results);
    assert(size >= 1) by {
        if n > 0 {
            assert((n + w - 1) / w >= 1) by (nonlinear_arith)
                requires
                    n >= 1,
                    w >= 1,
            ;
        }
    }
    lemma_ceil_div_bounds(n, size);
    assert forall|i: int| 0 <= i < parts.len() implies #[trigger] parts[i] == chunk_of(e, size, i) by {
        assert(parts[i] == results[i].entries@);
        assert(lines_view(chunks[i]@) == chunk_of(lines, size, i));
        assert(i * size <= n) by (nonlinear_arith)
            requires
                i < chunk_count(n, size),
                chunk_count(n, size) == 0 || (chunk_count(n, size) - 1) * size < n,
                size >= 1,
        ;
        assert((i + 1) * size >= i * size) by (nonlinear_arith)
            requires
                size >= 1,
        ;
        assert(entries_of(chunk_of(lines, size, i)) =~= chunk_of(e, size, i));
    }
    lemma_chunks_flatten(e, parts, size, parts.len() as int);
    assert(parts.take(parts.len() as int) =~= parts);
    assert(e.take(min_int(parts.len() * size, n)) =~= e);
}

/// The chunked mode and the streaming mode build the same corpus from the same
/// source, for every worker count: the rows come out in strictly rising line
/// order, and the worker count changes nothing.
pub proof fn lemma_chunked_agrees_with_streaming(
    outcomes: Seq<Option<Seq<char>>>,
    w: int,
    chunks: Seq<Vec<SourceLine>>,
    results: Seq<ChunkResult>,
    records: Seq<RowRecord>,
)
    requires
        outcomes.len() <= usize::MAX,
        w >= 1,
        is_partition(ingested(outcomes), w, chunks),
        is_counted(chunks, results),
        is_aggregation(chunk_entries(results).flatten(), records),
    ensures
        records == corpus_records(outcomes),
        strictly_by_file_row(record_entries(records)),
{
    let lines = ingested(outcomes);
    let e = entries_of(lines);
    lemma_counted_chunks_join(lines, w, chunks, results);
    lemma_ingested_strictly_increasing(outcomes);
    lemma_ingested_bounds(outcomes);
    assert(strictly_by_file_row(e)) by {
        assert forall|i: int, j: int| 0 <= i < j < e.len() implies e[i].file_row < e[j].file_row by {
            assert(lines[i].0 < lines[j].0);
            assert(1 <= lines[i].0 <= outcomes.len());
            assert(1 <= lines[j].0 <= outcomes.len());
        }
    }
    lemma_sorted_permutation_unique(e, record_entries(records));
}

} // verus!
