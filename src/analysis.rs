//! The analysis of one input: configuration, the artifacts computed from a
//! corpus, and the chunked pipeline that builds the corpus from read outcomes.
use vstd::prelude::*;
use crate::distribution::{
    LengthGroup, PageGroup, bucket_data_indices, bucket_file_rows, bucket_of, build_length_table,
    build_page_table, has_bucket, is_length_table, is_page_table, lemma_length_table_distinct,
};
use crate::outliers::{
    OutlierEntry, OutlierFences, fences_of, find_outliers, is_outlier_set, outlier_fences,
};
use crate::parallel::{
    ChunkResult, aggregate, chunk_entries, is_aggregation, is_counted, is_partition,
    lemma_chunked_agrees_with_streaming, lemma_counted_chunks_join, partition_rows, process_chunk,
};
use crate::rows::{
    Corpus, RowRecord, SourceLine, corpus_records, entries_of, ingest_lines, ingested, lemma_ingested_bounds,
    lines_view, outcomes_view, read_errors, record_entries, total_chars,
};
use crate::statistics::{Statistics, calculate_statistics, statistics_of};

verus! {

/// Characters per page unless configured otherwise.
pub const DEFAULT_PAGE_SIZE: usize = 3000;

/// Workers of the chunked mode unless configured otherwise.
pub const DEFAULT_WORKER_COUNT: usize = 8;

/// The settings of one analysis run.
#[derive(Clone, Copy, Debug, PartialEq, Eq, Structural)]
pub struct AnalysisConfig {
    pub page_size: usize,
    pub worker_count: usize,
}

impl Default for AnalysisConfig {
    fn default() -> (r: Self)
        ensures
            r.page_size == DEFAULT_PAGE_SIZE,
            r.worker_count == DEFAULT_WORKER_COUNT,
    {
        AnalysisConfig { page_size: DEFAULT_PAGE_SIZE, worker_count: DEFAULT_WORKER_COUNT }
    }
}

/// Why an analysis cannot run.
#[derive(Clone, Copy, Debug, PartialEq, Eq, Structural)]
pub enum AnalysisError {
    /// A page of zero characters leaves page buckets undefined.
    ZeroPageSize,
    /// The chunked mode needs at least one worker.
    ZeroWorkerCount,
}

/// Everything computed for one input.
pub struct AnalysisResult {
    pub records: Vec<RowRecord>,
    pub total_chars: u128,
    pub error_count: usize,
    pub statistics: Statistics,
    pub length_table: Vec<LengthGroup>,
    pub page_table: Vec<PageGroup>,
    pub fences: OutlierFences,
    pub outliers: Vec<OutlierEntry>,
}

impl AnalysisResult {
    /// The number of rows in the corpus.
    pub fn total_rows(&self) -> (r: usize)
        ensures
            r == self.records@.len(),
    {
        self.records.len()
    }
}

/// The character counts of the rows, in corpus order.
pub open spec fn record_lengths(rs: Seq<RowRecord>) -> Seq<usize> {
    rs.map_values(|r: RowRecord| r.char_count)
}

/// `a` holds the artifacts of the corpus `records` for pages of `page_size`.
pub open spec fn describes(a: AnalysisResult, records: Seq<RowRecord>, page_size: int) -> bool {
    let stats = statistics_of(record_lengths(records));
    &&& a.records@ == records
    &&& a.total_chars == total_chars(record_entries(records))
    &&& a.statistics == stats
    &&& is_length_table(records, a.length_table@)
    &&& is_page_table(a.length_table@, page_size, a.page_table@)
    &&& a.fences == fences_of(stats.q1 as int, stats.q3 as int)
    &&& is_outlier_set(a.length_table@, stats.q1 as int, stats.q3 as int, a.outliers@)
}

pub open spec fn config_error(config: AnalysisConfig) -> Option<AnalysisError> {
    if config.page_size == 0 {
        Some(AnalysisError::ZeroPageSize)
    } else if config.worker_count == 0 {
        Some(AnalysisError::ZeroWorkerCount)
    } else {
        None
    }
}

/// Checks a configuration before a run.
pub fn check_config(config: &AnalysisConfig) -> (r: Result<(), AnalysisError>)
    ensures
        r == match config_error(*config) {
            Some(e) => Err(e),
            None => Ok::<(), AnalysisError>(()),
        },
{
    if config.page_size == 0 {
        Err(AnalysisError::ZeroPageSize)
    } else if config.worker_count == 0 {
        Err(AnalysisError::ZeroWorkerCount)
    } else {
        Ok(())
    }
}

/// Computes statistics, length and page tables, fences and outliers of a
/// corpus.
pub fn analyze_corpus(corpus: Corpus, error_count: usize, page_size: usize) -> (r: Result<
    AnalysisResult,
    AnalysisError,
>)
    requires
        corpus.total_chars == total_chars(record_entries(corpus.records@)),
    ensures
        page_size == 0 ==> r == Err::<AnalysisResult, AnalysisError>(AnalysisError::ZeroPageSize),
        page_size > 0 ==> r is Ok,
        r matches Ok(a) ==> describes(a, corpus.records@, page_size as int) && a.error_count
            == error_count,
{
    if page_size == 0 {
        return Err(AnalysisError::ZeroPageSize);
    }
    let records = corpus.records;
    let mut lengths: Vec<usize> = Vec::new();
    let mut i: usize = 0;
    while i < records.len()
        invariant
            i <= records@.len(),
            lengths@ == record_lengths(records@.take(i as int)),
        decreases records@.len() - i,
    {
        lengths.push(records[i].char_count);
        i = i + 1;
        proof {
            assert(lengths@ =~= record_lengths(records@.take(i as int)));
        }
    }
    assert(records@.take(records@.len() as int) =~= records@);
    let statistics = calculate_statistics(&lengths);
    let length_table = build_length_table(&records);
    proof {
        lemma_length_table_distinct(records@, length_table@);
    }
    let page_table = build_page_table(&length_table, page_size);
    let fences = outlier_fences(statistics.q1, statistics.q3);
    let outliers = find_outliers(&length_table, statistics.q1, statistics.q3);
    Ok(
        AnalysisResult {
            records,
            total_chars: corpus.total_chars,
            error_count,
            statistics,
            length_table,
            page_table,
            fences,
            outliers,
        },
    )
}

/// Runs the chunked pipeline over the read outcomes of a source (`None` for a
/// line that could not be read), one chunk after another, and analyzes the
/// corpus it builds.
pub fn analyze_outcomes(outcomes: &Vec<Option<String>>, config: AnalysisConfig) -> (r: Result<
    AnalysisResult,
    AnalysisError,
>)
    requires
        outcomes@.len() <= isize::MAX,
    ensures
        match config_error(config) {
            Some(e) => r == Err::<AnalysisResult, AnalysisError>(e),
            None => r matches Ok(a) && describes(
                a,
                corpus_records(outcomes_view(outcomes@)),
                config.page_size as int,
            ) && a.error_count == read_errors(outcomes_view(outcomes@)),
        },
{
    match check_config(&config) {
        Err(e) => {
            return Err(e);
        },
        Ok(()) => {},
    }
    let ghost os = outcomes_view(outcomes@);
    let ingested_lines = ingest_lines(outcomes);
    let chunks = partition_rows(&ingested_lines.lines, config.worker_count);
    proof {
        assert(ingested_lines.lines@.len() == ingested(os).len());
        assert(is_partition(ingested(os), config.worker_count as int, chunks@));
    }
    let mut results: Vec<ChunkResult> = Vec::new();
    let mut k: usize = 0;
    while k < chunks.len()
        invariant
            k <= chunks@.len(),
            is_counted(chunks@.take(k as int), results@),
            forall|m: int|
                0 <= m < results@.len() ==> (#[trigger] results@[m]).char_total == total_chars(
                    results@[m].entries@,
                ),
        decreases chunks@.len() - k,
    {
        let res = process_chunk(&chunks[k]);
        results.push(res);
        k = k + 1;
        proof {
            assert forall|m: int| 0 <= m < results@.len() implies (#[trigger] results@[m]).entries@
                == entries_of(lines_view(chunks@.take(k as int)[m]@)) by {
                assert(chunks@.take(k as int)[m] == chunks@[m]);
                if m < k - 1 {
                    assert(chunks@.take(k - 1)[m] == chunks@[m]);
                }
            }
        }
    }
    assert(chunks@.take(chunks@.len() as int) =~= chunks@);
    proof {
        lemma_counted_chunks_join(ingested(os), config.worker_count as int, chunks@, results@);
        lemma_ingested_bounds(os);
    }
    let corpus = aggregate(results);
    proof {
        lemma_chunked_agrees_with_streaming(
            os,
            config.worker_count as int,
            chunks@,
            results@,
            corpus.records@,
        );
    }
    analyze_corpus(corpus, ingested_lines.error_count, config.page_size)
}

/// The content of a length table: length, line numbers and data indices of
/// each group.
pub open spec fn length_table_view(gs: Seq<LengthGroup>) -> Seq<(usize, Seq<usize>, Seq<isize>)> {
    gs.map_values(|g: LengthGroup| (g.length, g.file_rows@, g.data_indices@))
}

/// The content of a page table: bucket, line numbers and data indices of each
/// entry.
pub open spec fn page_table_view(ps: Seq<PageGroup>) -> Seq<(usize, Seq<usize>, Seq<isize>)> {
    ps.map_values(|p: PageGroup| (p.bucket, p.file_rows@, p.data_indices@))
}

proof fn lemma_page_bucket_at(
    gs: Seq<LengthGroup>,
    page_size: int,
    a: Seq<PageGroup>,
    b: Seq<PageGroup>,
    i: int,
)
    requires
        is_page_table(gs, page_size, a),
        is_page_table(gs, page_size, b),
        0 <= i < a.len(),
        i < b.len(),
        forall|k: int| 0 <= k < i ==> a[k].bucket == b[k].bucket,
    ensures
        a[i].bucket == b[i].bucket,
{
    assert(has_bucket_at(gs, page_size, a, i));
    assert(has_bucket_at(gs, page_size, b, i));
    let k = choose|k: int| 0 <= k < b.len() && (#[trigger] b[k]).bucket == a[i].bucket;
    let m = choose|m: int| 0 <= m < a.len() && (#[trigger] a[m]).bucket == b[i].bucket;
    if k < i {
        assert(a[k].bucket < a[i].bucket);
    }
    if m < i {
        assert(b[m].bucket < b[i].bucket);
    }
    if k > i {
        assert(b[i].bucket < b[k].bucket);
        if m > i {
            assert(a[i].bucket < a[m].bucket);
        }
    }
}

spec fn has_bucket_at(gs: Seq<LengthGroup>, page_size: int, a: Seq<PageGroup>, i: int) -> bool {
    has_bucket(gs, page_size, a[i].bucket as int)
}

proof fn lemma_page_buckets_prefix(
    gs: Seq<LengthGroup>,
    page_size: int,
    a: Seq<PageGroup>,
    b: Seq<PageGroup>,
    n: int,
)
    requires
        is_page_table(gs, page_size, a),
        is_page_table(gs, page_size, b),
        0 <= n <= a.len(),
        n <= b.len(),
    ensures
        forall|k: int| 0 <= k < n ==> a[k].bucket == b[k].bucket,
    decreases n,
{
    if n > 0 {
        lemma_page_buckets_prefix(gs, page_size, a, b, n - 1);
        lemma_page_bucket_at(gs, page_size, a, b, n - 1);
    }
}

proof fn lemma_page_table_no_longer(
    gs: Seq<LengthGroup>,
    page_size: int,
    a: Seq<PageGroup>,
    b: Seq<PageGroup>,
)
    requires
        is_page_table(gs, page_size, a),
        is_page_table(gs, page_size, b),
    ensures
        a.len() <= b.len(),
{
    if a.len() > b.len() {
        let i = b.len() as int;
        lemma_page_buckets_prefix(gs, page_size, a, b, i);
        assert(has_bucket_at(gs, page_size, a, i));
        let k = choose|k: int| 0 <= k < b.len() && (#[trigger] b[k]).bucket == a[i].bucket;
        assert(a[k].bucket < a[i].bucket);
    }
}

/// A page table is determined by the length table it is built from.
pub proof fn lemma_page_table_unique(
    gs: Seq<LengthGroup>,
    page_size: int,
    a: Seq<PageGroup>,
    b: Seq<PageGroup>,
)
    requires
        is_page_table(gs, page_size, a),
        is_page_table(gs, page_size, b),
    ensures
        page_table_view(a) == page_table_view(b),
{
    lemma_page_table_no_longer(gs, page_size, a, b);
    lemma_page_table_no_longer(gs, page_size, b, a);
    lemma_page_buckets_prefix(gs, page_size, a, b, a.len() as int);
    assert(page_table_view(a) =~= page_table_view(b));
}

/// The streaming mode and the chunked mode, run on the same source with any
/// worker count, yield the same corpus, statistics, length table and page
/// table.
pub proof fn lemma_modes_same_artifacts(
    outcomes: Seq<Option<Seq<char>>>,
    w: int,
    chunks: Seq<Vec<SourceLine>>,
    results: Seq<ChunkResult>,
    chunked_records: Seq<RowRecord>,
    chunked: AnalysisResult,
    streamed: AnalysisResult,
    page_size: int,
)
    requires
        outcomes.len() <= usize::MAX,
        w >= 1,
        is_partition(ingested(outcomes), w, chunks),
        is_counted(chunks, results),
        is_aggregation(chunk_entries(results).flatten(), chunked_records),
        describes(chunked, chunked_records, page_size),
        describes(streamed, corpus_records(outcomes), page_size),
    ensures
        chunked.records@ == streamed.records@,
        chunked.statistics == streamed.statistics,
        length_table_view(chunked.length_table@) == length_table_view(streamed.length_table@),
        page_table_view(chunked.page_table@) == page_table_view(streamed.page_table@),
{
    lemma_chunked_agrees_with_streaming(outcomes, w, chunks, results, chunked_records);
    let g1 = chunked.length_table@;
    let g2 = streamed.length_table@;
    assert(length_table_view(g1) =~= length_table_view(g2));
    lemma_same_groups_same_buckets(g1, g2, page_size);
    assert(is_page_table(g2, page_size, chunked.page_table@)) by {
        assert forall|i: int| 0 <= i < chunked.page_table@.len() implies has_bucket(
            g2,
            page_size,
            (#[trigger] chunked.page_table@[i]).bucket as int,
        ) by {
            assert(has_bucket(g1, page_size, chunked.page_table@[i].bucket as int));
        }
        assert forall|b: int| #[trigger] has_bucket(g2, page_size, b) implies exists|i: int|
            0 <= i < chunked.page_table@.len() && (#[trigger] chunked.page_table@[i]).bucket == b by {
            assert(has_bucket(g1, page_size, b));
        }
    }
    lemma_page_table_unique(g2, page_size, chunked.page_table@, streamed.page_table@);
}

proof fn lemma_same_groups_same_buckets(g1: Seq<LengthGroup>, g2: Seq<LengthGroup>, page_size: int)
    requires
        length_table_view(g1) == length_table_view(g2),
    ensures
        forall|b: int|
            #[trigger] bucket_file_rows(g1, page_size, b) == bucket_file_rows(g2, page_size, b),
        forall|b: int|
            #[trigger] bucket_data_indices(g1, page_size, b) == bucket_data_indices(g2, page_size, b),
        forall|b: int| #[trigger] has_bucket(g1, page_size, b) == has_bucket(g2, page_size, b),
    decreases g1.len(),
{
    assert(g1.len() == length_table_view(g1).len());
    assert(g2.len() == length_table_view(g2).len());
    assert forall|j: int| 0 <= j < g1.len() implies #[trigger] g1[j].length == g2[j].length
        && g1[j].file_rows@ == g2[j].file_rows@ && g1[j].data_indices@ == g2[j].data_indices@ by {
        assert(length_table_view(g1)[j] == length_table_view(g2)[j]);
    }
    if g1.len() > 0 {
        let i1 = g1.drop_last();
        let i2 = g2.drop_last();
        assert(length_table_view(i1) =~= length_table_view(i2)) by {
            assert forall|j: int| 0 <= j < i1.len() implies length_table_view(i1)[j]
                == length_table_view(i2)[j] by {
                assert(i1[j] == g1[j]);
                assert(i2[j] == g2[j]);
            }
        }
        lemma_same_groups_same_buckets(i1, i2, page_size);
        assert forall|b: int|
            bucket_file_rows(g1, page_size, b) == bucket_file_rows(g2, page_size, b)
                && bucket_data_indices(g1, page_size, b) == bucket_data_indices(g2, page_size, b) by {
            assert(bucket_file_rows(i1, page_size, b) == bucket_file_rows(i2, page_size, b));
            assert(bucket_data_indices(i1, page_size, b) == bucket_data_indices(i2, page_size, b));
            assert(g1.last().length == g2.last().length);
            assert(g1.last().file_rows@ == g2.last().file_rows@);
            assert(g1.last().data_indices@ == g2.last().data_indices@);
        }
    }
    assert forall|b: int| has_bucket(g1, page_size, b) == has_bucket(g2, page_size, b) by {
        if has_bucket(g1, page_size, b) {
            let j = choose|j: int|
                0 <= j < g1.len() && bucket_of((#[trigger] g1[j]).length as int, page_size) == b;
            assert(g2[j].length == g1[j].length);
        }
        if has_bucket(g2, page_size, b) {
            let j = choose|j: int|
                0 <= j < g2.len() && bucket_of((#[trigger] g2[j]).length as int, page_size) == b;
            assert(g2[j].length == g1[j].length);
        }
    }
}

} // verus!
