use csv_row_analyzer::distribution::{build_length_table, build_page_table};
use csv_row_analyzer::ordering::{
    groups_by_frequency, groups_by_length, order_descending, pages_by_frequency, records_by_length,
};
use csv_row_analyzer::streaming::StreamingCounter;

fn corpus_of(lines: &[&str]) -> csv_row_analyzer::rows::Corpus {
    let mut counter = StreamingCounter::new();
    for line in lines {
        counter.accept_line(line);
    }
    counter.finish()
}

#[test]
fn order_descending_of_pairs() {
    assert_eq!(order_descending(&vec![(1, 5), (3, 0), (1, 7), (2, 2)]), vec![1, 3, 2, 0]);
    assert!(order_descending(&vec![]).is_empty());
}

#[test]
fn groups_longest_first() {
    let corpus = corpus_of(&["h", "ab", "cd", "xyz", "ef"]);
    let table = build_length_table(&corpus.records);
    let lengths: Vec<usize> = groups_by_length(&table).iter().map(|&i| table[i].length).collect();
    assert_eq!(lengths, vec![3, 2, 1]);
}

#[test]
fn groups_most_frequent_first() {
    let corpus = corpus_of(&["h", "ab", "cd", "xyz", "ef", "i", "jkl"]);
    let table = build_length_table(&corpus.records);
    let order: Vec<(usize, usize)> =
        groups_by_frequency(&table).iter().map(|&i| (table[i].length, table[i].count())).collect();
    assert_eq!(order, vec![(2, 3), (3, 2), (1, 2)]);
}

#[test]
fn pages_most_frequent_first() {
    let corpus = corpus_of(&["h", "ab", "cd", "xyz", "ef", ""]);
    let table = build_length_table(&corpus.records);
    let pages = build_page_table(&table, 2);
    let order: Vec<usize> = pages_by_frequency(&pages).iter().map(|&i| pages[i].bucket).collect();
    assert_eq!(order, vec![1, 2, 0]);
}

#[test]
fn rows_longest_first_stable() {
    let corpus = corpus_of(&["aa", "b", "cc", "dddd", "e"]);
    let rows: Vec<usize> =
        records_by_length(&corpus.records).iter().map(|&i| corpus.records[i].file_row).collect();
    assert_eq!(rows, vec![4, 1, 3, 2, 5]);
}
