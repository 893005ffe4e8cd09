use csv_row_analyzer::outliers::{find_outliers, is_outlier, outlier_fences, outlier_row_count, OutlierEntry};
use csv_row_analyzer::distribution::{build_length_table, build_page_table, page_bucket};
use csv_row_analyzer::statistics::{calculate_statistics, Statistics};
use csv_row_analyzer::streaming::StreamingCounter;

fn corpus_of(lines: &[&str]) -> csv_row_analyzer::rows::Corpus {
    let mut counter = StreamingCounter::new();
    for line in lines {
        counter.accept_line(line);
    }
    counter.finish()
}

#[test]
fn statistics_of_five_lengths() {
    let stats = calculate_statistics(&vec![10, 20, 20, 30, 1000]);
    assert_eq!(stats.count, 5);
    assert_eq!(stats.min, 10);
    assert_eq!(stats.max, 1000);
    assert_eq!(stats.median, 20);
    assert_eq!(stats.q1, 20);
    assert_eq!(stats.q3, 30);
    assert_eq!(stats.sum, 1080);
    assert_eq!(stats.sum_of_squares, Some(1_001_800));
    let mean = stats.sum as f64 / stats.count as f64;
    assert_eq!(mean, 216.0);
    let variance = stats.sum_of_squares.unwrap() as f64 / stats.count as f64 - mean * mean;
    let std_dev = variance.sqrt();
    assert!((std_dev - 392.1).abs() < 0.05);
}

#[test]
fn statistics_order_does_not_matter() {
    let a = calculate_statistics(&vec![1000, 20, 30, 10, 20]);
    let b = calculate_statistics(&vec![10, 20, 20, 30, 1000]);
    assert_eq!(a, b);
}

#[test]
fn statistics_even_count_averages_central_values() {
    let stats = calculate_statistics(&vec![4, 1, 3, 2]);
    assert_eq!(stats.min, 1);
    assert_eq!(stats.max, 4);
    assert_eq!(stats.median, 2);
    assert_eq!(stats.q1, 1);
    assert_eq!(stats.q3, 3);
}

#[test]
fn statistics_of_eight_lengths() {
    let stats = calculate_statistics(&vec![8, 7, 6, 5, 4, 3, 2, 1]);
    assert_eq!(stats.median, 4);
    assert_eq!(stats.q1, 2);
    assert_eq!(stats.q3, 6);
}

#[test]
fn statistics_of_nothing_are_zero() {
    let stats = calculate_statistics(&vec![]);
    assert_eq!(
        stats,
        Statistics { count: 0, min: 0, max: 0, sum: 0, median: 0, q1: 0, q3: 0, sum_of_squares: Some(0) }
    );
}

#[test]
fn statistics_of_one_length() {
    let stats = calculate_statistics(&vec![7]);
    assert_eq!((stats.min, stats.max, stats.median, stats.q1, stats.q3), (7, 7, 7, 7, 7));
}

#[test]
fn statistics_of_largest_lengths() {
    let stats = calculate_statistics(&vec![usize::MAX, usize::MAX]);
    assert_eq!(stats.median, usize::MAX);
    assert_eq!(stats.sum, 2 * (usize::MAX as u128));
    assert_eq!(stats.sum_of_squares, None);
}

#[test]
fn outlier_fences_of_example() {
    let f = outlier_fences(20, 30);
    assert_eq!(f.iqr, 10);
    assert_eq!(f.upper_doubled, 90);
    assert_eq!(f.lower_doubled, 10);
    assert!(is_outlier(1000, 20, 30));
    assert!(!is_outlier(40, 20, 30));
    assert!(!is_outlier(45, 20, 30));
    assert!(is_outlier(46, 20, 30));
}

#[test]
fn lower_fence_filters_nothing() {
    assert!(!is_outlier(0, 20, 30));
}

#[test]
fn outliers_largest_first_with_counts() {
    let text_1000 = "x".repeat(1000);
    let text_2000 = "y".repeat(2000);
    let lines: Vec<String> = vec![
        "a".repeat(10),
        "b".repeat(20),
        text_1000.clone(),
        "c".repeat(20),
        "d".repeat(30),
        text_2000,
        text_1000,
        "e".repeat(40),
    ];
    let refs: Vec<&str> = lines.iter().map(|s| s.as_str()).collect();
    let corpus = corpus_of(&refs);
    let table = build_length_table(&corpus.records);
    let out = find_outliers(&table, 20, 30);
    assert_eq!(
        out,
        vec![OutlierEntry { length: 2000, count: 1 }, OutlierEntry { length: 1000, count: 2 }]
    );
    assert_eq!(outlier_row_count(&out), 3);
}

#[test]
fn page_bucket_examples() {
    assert_eq!(page_bucket(3000, 3000), 1);
    assert_eq!(page_bucket(3001, 3000), 2);
    assert_eq!(page_bucket(0, 3000), 0);
    assert_eq!(page_bucket(1, 3000), 1);
    assert_eq!(page_bucket(usize::MAX, 2), usize::MAX / 2 + 1);
}

#[test]
fn length_table_groups_in_first_seen_order() {
    let corpus = corpus_of(&["h", "ab", "cd", "xyz", "ef"]);
    let table = build_length_table(&corpus.records);
    let lengths: Vec<usize> = table.iter().map(|g| g.length).collect();
    assert_eq!(lengths, vec![1, 2, 3]);
    assert_eq!(table[1].file_rows, vec![2, 3, 5]);
    assert_eq!(table[1].data_indices, vec![0, 1, 3]);
    assert_eq!(table[1].count(), 3);
    assert_eq!(table[0].data_indices, vec![-1]);
    assert_eq!(table[2].file_rows, vec![4]);
}

#[test]
fn page_table_regroups_length_groups() {
    let corpus = corpus_of(&["h", "ab", "cd", "xyz", "ef", ""]);
    let table = build_length_table(&corpus.records);
    let pages = build_page_table(&table, 2);
    let buckets: Vec<usize> = pages.iter().map(|p| p.bucket).collect();
    assert_eq!(buckets, vec![0, 1, 2]);
    assert_eq!(pages[0].file_rows, vec![6]);
    assert_eq!(pages[1].file_rows, vec![1, 2, 3, 5]);
    assert_eq!(pages[1].data_indices, vec![-1, 0, 1, 3]);
    assert_eq!(pages[1].count(), 4);
    assert_eq!(pages[2].file_rows, vec![4]);
}

#[test]
fn empty_corpus_has_empty_tables() {
    let corpus = corpus_of(&[]);
    let table = build_length_table(&corpus.records);
    assert!(table.is_empty());
    assert!(build_page_table(&table, 3000).is_empty());
    assert!(find_outliers(&table, 0, 0).is_empty());
}
