use csv_row_analyzer::analysis::{analyze_corpus, analyze_outcomes, check_config, AnalysisConfig, AnalysisError};
use csv_row_analyzer::parallel::{aggregate, partition_rows, process_chunk};
use csv_row_analyzer::rows::{ingest_lines, RowRecord};
use csv_row_analyzer::streaming::StreamingCounter;

fn outcomes(lines: &[Option<&str>]) -> Vec<Option<String>> {
    lines.iter().map(|l| l.map(|s| s.to_string())).collect()
}

fn streamed(lines: &[Option<&str>]) -> (csv_row_analyzer::rows::Corpus, usize) {
    let mut counter = StreamingCounter::new();
    for line in lines {
        match line {
            Some(text) => counter.accept_line(text),
            None => counter.record_read_error(),
        }
    }
    let errors = counter.error_count();
    (counter.finish(), errors)
}

fn sample() -> Vec<Option<&'static str>> {
    vec![
        Some("id,name"),
        Some("1,alpha"),
        Some("2,béta"),
        None,
        Some(""),
        Some("4,a much longer row than the others"),
        Some("5,x"),
        Some("6,yy"),
        None,
        Some("8,zzz"),
        Some("9,αβγ"),
    ]
}

#[test]
fn characters_are_unicode_scalars() {
    let (corpus, _) = streamed(&[Some("héllo"), Some("日本")]);
    assert_eq!(corpus.records[0].char_count, 5);
    assert_eq!(corpus.records[1].char_count, 2);
    assert_eq!(corpus.total_chars, 7);
}

#[test]
fn header_rule_numbers_data_rows() {
    let (corpus, errors) = streamed(&[Some("h"), Some("a"), None, Some("b")]);
    assert_eq!(errors, 1);
    assert_eq!(
        corpus.records,
        vec![
            RowRecord { file_row: 1, data_index: -1, char_count: 1 },
            RowRecord { file_row: 2, data_index: 0, char_count: 1 },
            RowRecord { file_row: 4, data_index: 1, char_count: 1 },
        ]
    );
}

#[test]
fn header_rule_without_first_line() {
    let (corpus, errors) = streamed(&[None, Some("a"), Some("bb")]);
    assert_eq!(errors, 1);
    let indices: Vec<isize> = corpus.records.iter().map(|r| r.data_index).collect();
    assert_eq!(indices, vec![0, 1]);
}

#[test]
fn ingest_numbers_lines_and_counts_failures() {
    let ing = ingest_lines(&outcomes(&[Some("a"), None, Some("b"), None]));
    assert_eq!(ing.error_count, 2);
    let rows: Vec<usize> = ing.lines.iter().map(|l| l.file_row).collect();
    assert_eq!(rows, vec![1, 3]);
    assert_eq!(ing.lines[1].text, "b");
}

#[test]
fn partition_sizes() {
    let ing = ingest_lines(&outcomes(&[Some("x"); 10]));
    let sizes = |w: usize| -> Vec<usize> { partition_rows(&ing.lines, w).iter().map(|c| c.len()).collect() };
    assert_eq!(sizes(8), vec![2, 2, 2, 2, 2]);
    assert_eq!(sizes(3), vec![4, 4, 2]);
    assert_eq!(sizes(1), vec![10]);
    assert_eq!(sizes(20), vec![1; 10]);
    let empty = ingest_lines(&outcomes(&[]));
    assert!(partition_rows(&empty.lines, 8).is_empty());
}

#[test]
fn partition_keeps_file_order() {
    let ing = ingest_lines(&outcomes(&sample()));
    let chunks = partition_rows(&ing.lines, 4);
    let rows: Vec<usize> = chunks.iter().flat_map(|c| c.iter().map(|l| l.file_row)).collect();
    let expected: Vec<usize> = ing.lines.iter().map(|l| l.file_row).collect();
    assert_eq!(rows, expected);
}

#[test]
fn partial_sums_add_up_to_total() {
    let ing = ingest_lines(&outcomes(&sample()));
    for w in 1..=12 {
        let chunks = partition_rows(&ing.lines, w);
        let results: Vec<_> = chunks.iter().map(process_chunk).collect();
        let partial: u128 = results.iter().map(|r| r.char_total).sum();
        let corpus = aggregate(results);
        let direct: u128 = corpus.records.iter().map(|r| r.char_count as u128).sum();
        assert_eq!(partial, corpus.total_chars);
        assert_eq!(direct, corpus.total_chars);
    }
}

#[test]
fn aggregate_restores_order_whatever_the_completion_order() {
    let ing = ingest_lines(&outcomes(&sample()));
    let (expected, _) = streamed(&sample());
    for w in 1..=12 {
        let chunks = partition_rows(&ing.lines, w);
        let mut results: Vec<_> = chunks.iter().map(process_chunk).collect();
        results.reverse();
        let corpus = aggregate(results);
        assert_eq!(corpus.records, expected.records);
        assert!(corpus.records.windows(2).all(|p| p[0].file_row < p[1].file_row));
    }
}

#[test]
fn worker_count_changes_nothing() {
    let lines = outcomes(&sample());
    let first = analyze_outcomes(&lines, AnalysisConfig { page_size: 10, worker_count: 1 }).unwrap();
    for w in 2..=16 {
        let a = analyze_outcomes(&lines, AnalysisConfig { page_size: 10, worker_count: w }).unwrap();
        assert_eq!(a.records, first.records);
        assert_eq!(a.statistics, first.statistics);
    }
}

#[test]
fn streaming_and_chunked_modes_agree() {
    let lines = sample();
    let (corpus, errors) = streamed(&lines);
    let s = analyze_corpus(corpus, errors, 10).unwrap();
    let c = analyze_outcomes(&outcomes(&lines), AnalysisConfig { page_size: 10, worker_count: 3 }).unwrap();
    assert_eq!(s.records, c.records);
    assert_eq!(s.total_chars, c.total_chars);
    assert_eq!(s.error_count, 2);
    assert_eq!(c.error_count, 2);
    assert_eq!(s.statistics, c.statistics);
    assert_eq!(s.length_table.len(), c.length_table.len());
    for (x, y) in s.length_table.iter().zip(c.length_table.iter()) {
        assert_eq!((x.length, &x.file_rows, &x.data_indices), (y.length, &y.file_rows, &y.data_indices));
    }
    assert_eq!(s.page_table.len(), c.page_table.len());
    for (x, y) in s.page_table.iter().zip(c.page_table.iter()) {
        assert_eq!((x.bucket, &x.file_rows, &x.data_indices), (y.bucket, &y.file_rows, &y.data_indices));
    }
    assert_eq!(s.outliers, c.outliers);
    assert_eq!(s.fences, c.fences);
}

#[test]
fn analysis_of_sample() {
    let a = analyze_outcomes(&outcomes(&sample()), AnalysisConfig::default()).unwrap();
    assert_eq!(a.total_rows(), 9);
    let lengths: Vec<usize> = a.records.iter().map(|r| r.char_count).collect();
    assert_eq!(lengths, vec![7, 7, 6, 0, 35, 3, 4, 5, 5]);
    assert_eq!(a.total_chars, 72);
    assert_eq!(a.statistics.median, 5);
    assert_eq!(a.statistics.q1, 4);
    assert_eq!(a.statistics.q3, 7);
    assert_eq!(a.fences.upper_doubled, 2 * 7 + 3 * 3);
    assert_eq!(a.outliers.len(), 1);
    assert_eq!(a.outliers[0].length, 35);
    assert_eq!(a.page_table.len(), 2);
    assert_eq!(a.page_table[0].bucket, 0);
    assert_eq!(a.page_table[1].bucket, 1);
    assert_eq!(a.page_table[1].count(), 8);
}

#[test]
fn empty_input_is_not_an_error() {
    let a = analyze_outcomes(&outcomes(&[]), AnalysisConfig::default()).unwrap();
    assert_eq!(a.total_rows(), 0);
    assert_eq!(a.total_chars, 0);
    assert_eq!(a.statistics.median, 0);
    assert!(a.length_table.is_empty());
    assert!(a.page_table.is_empty());
    assert!(a.outliers.is_empty());
}

#[test]
fn default_config() {
    let c = AnalysisConfig::default();
    assert_eq!((c.page_size, c.worker_count), (3000, 8));
    assert_eq!(check_config(&c), Ok(()));
}

#[test]
fn zero_page_size_is_refused() {
    let c = AnalysisConfig { page_size: 0, worker_count: 8 };
    assert_eq!(check_config(&c), Err(AnalysisError::ZeroPageSize));
    assert!(matches!(analyze_outcomes(&outcomes(&[Some("a")]), c), Err(AnalysisError::ZeroPageSize)));
    let (corpus, errors) = streamed(&[Some("a")]);
    assert!(matches!(analyze_corpus(corpus, errors, 0), Err(AnalysisError::ZeroPageSize)));
}

#[test]
fn zero_workers_is_refused() {
    let c = AnalysisConfig { page_size: 3000, worker_count: 0 };
    assert_eq!(check_config(&c), Err(AnalysisError::ZeroWorkerCount));
    assert!(matches!(analyze_outcomes(&outcomes(&[Some("a")]), c), Err(AnalysisError::ZeroWorkerCount)));
}
