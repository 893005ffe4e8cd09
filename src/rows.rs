//! Rows of the source and the numbering rules that give each one its identity.
use vstd::prelude::*;

verus! {

/// A line read from the source with its 1-based physical line number.
pub struct SourceLine {
    pub file_row: usize,
    pub text: String,
}

/// The per-line result of counting: line number and character count.
#[derive(Clone, Copy, Debug, PartialEq, Eq, Structural)]
pub struct RowEntry {
    pub file_row: usize,
    pub char_count: usize,
}

/// A row of the corpus: line number, position among data rows (-1 for the
/// header line) and character count.
#[derive(Clone, Copy, Debug, PartialEq, Eq, Structural)]
pub struct RowRecord {
    pub file_row: usize,
    pub data_index: isize,
    pub char_count: usize,
}

/// The header line is the first physical line.
pub open spec fn is_header(e: RowEntry) -> bool {
    e.file_row == 1
}

/// The lines that were read successfully, each with its 1-based line number;
/// `None` stands for a line that could not be read.
pub open spec fn ingested(outcomes: Seq<Option<Seq<char>>>) -> Seq<(int, Seq<char>)>
    decreases outcomes.len(),
{
    if outcomes.len() == 0 {
        Seq::empty()
    } else {
        let prev = ingested(outcomes.drop_last());
        match outcomes.last() {
            Some(t) => prev.push((outcomes.len() as int, t)),
            None => prev,
        }
    }
}

/// The number of lines that could not be read.
pub open spec fn read_errors(outcomes: Seq<Option<Seq<char>>>) -> nat
    decreases outcomes.len(),
{
    if outcomes.len() == 0 {
        0
    } else {
        read_errors(outcomes.drop_last()) + if outcomes.last() is None {
            1nat
        } else {
            0nat
        }
    }
}

/// The view of an exec line: its number and its characters.
pub open spec fn line_view(l: SourceLine) -> (int, Seq<char>) {
    (l.file_row as int, l.text@)
}

pub open spec fn lines_view(ls: Seq<SourceLine>) -> Seq<(int, Seq<char>)> {
    ls.map_values(|l: SourceLine| line_view(l))
}

/// The entry a worker produces for a line: the character count is the number
/// of Unicode scalar values.
pub open spec fn entry_of(l: (int, Seq<char>)) -> RowEntry {
    RowEntry { file_row: l.0 as usize, char_count: l.1.len() as usize }
}

pub open spec fn entries_of(ls: Seq<(int, Seq<char>)>) -> Seq<RowEntry> {
    ls.map_values(|l: (int, Seq<char>)| entry_of(l))
}

/// Sum of the character counts.
pub open spec fn total_chars(es: Seq<RowEntry>) -> nat
    decreases es.len(),
{
    if es.len() == 0 {
        0
    } else {
        total_chars(es.drop_last()) + es.last().char_count as nat
    }
}

/// Number of rows that are not the header.
pub open spec fn non_header_count(es: Seq<RowEntry>) -> nat
    decreases es.len(),
{
    if es.len() == 0 {
        0
    } else {
        non_header_count(es.drop_last()) + if is_header(es.last()) {
            0nat
        } else {
            1nat
        }
    }
}

/// -1 for the header; otherwise the 0-based offset among the non-header rows.
pub open spec fn data_index_at(es: Seq<RowEntry>, i: int) -> int {
    if is_header(es[i]) {
        -1
    } else {
        non_header_count(es.take(i)) as int
    }
}

pub open spec fn record_at(es: Seq<RowEntry>, i: int) -> RowRecord {
    RowRecord {
        file_row: es[i].file_row,
        data_index: data_index_at(es, i) as isize,
        char_count: es[i].char_count,
    }
}

/// The entries in order, each with its data index.
pub open spec fn with_data_indices(es: Seq<RowEntry>) -> Seq<RowRecord> {
    Seq::new(es.len(), |i: int| record_at(es, i))
}

/// The entry part of a record.
pub open spec fn entry_part(r: RowRecord) -> RowEntry {
    RowEntry { file_row: r.file_row, char_count: r.char_count }
}

pub open spec fn record_entries(rs: Seq<RowRecord>) -> Seq<RowEntry> {
    rs.map_values(|r: RowRecord| entry_part(r))
}

/// The corpus that the streaming mode builds from a sequence of read outcomes.
pub open spec fn corpus_records(outcomes: Seq<Option<Seq<char>>>) -> Seq<RowRecord> {
    with_data_indices(entries_of(ingested(outcomes)))
}

/// The view of a read outcome.
pub open spec fn outcome_view(o: Option<String>) -> Option<Seq<char>> {
    match o {
        Some(s) => Some(s@),
        None => None,
    }
}

pub open spec fn outcomes_view(os: Seq<Option<String>>) -> Seq<Option<Seq<char>>> {
    os.map_values(|o: Option<String>| outcome_view(o))
}

pub proof fn lemma_total_chars_bound(es: Seq<RowEntry>)
    ensures
        total_chars(es) <= es.len() * (usize::MAX as nat),
    decreases es.len(),
{
    if es.len() > 0 {
        lemma_total_chars_bound(es.drop_last());
        assert((es.len() - 1) * (usize::MAX as nat) + usize::MAX as nat == es.len() * (
        usize::MAX as nat)) by (nonlinear_arith);
    }
}

pub proof fn lemma_read_errors_bound(outcomes: Seq<Option<Seq<char>>>)
    ensures
        read_errors(outcomes) <= outcomes.len(),
    decreases outcomes.len(),
{
    if outcomes.len() > 0 {
        lemma_read_errors_bound(outcomes.drop_last());
    }
}

pub proof fn lemma_non_header_count_bound(es: Seq<RowEntry>)
    ensures
        non_header_count(es) <= es.len(),
    decreases es.len(),
{
    if es.len() > 0 {
        lemma_non_header_count_bound(es.drop_last());
    }
}

/// Appending an entry appends its record, numbered after the ones before it.
pub proof fn lemma_with_data_indices_push(es: Seq<RowEntry>, e: RowEntry)
    ensures
        with_data_indices(es.push(e)) == with_data_indices(es).push(
            RowRecord {
                file_row: e.file_row,
                data_index: (if is_header(e) {
                    -1
                } else {
                    non_header_count(es) as int
                }) as isize,
                char_count: e.char_count,
            },
        ),
{
    let s = es.push(e);
    assert(s.take(es.len() as int) =~= es);
    assert forall|i: int| 0 <= i < es.len() implies s.take(i) == es.take(i) by {
        assert(s.take(i) =~= es.take(i));
    }
    assert(with_data_indices(s) =~= with_data_indices(es).push(record_at(s, es.len() as int)));
}

pub proof fn lemma_ingested_bounds(outcomes: Seq<Option<Seq<char>>>)
    ensures
        ingested(outcomes).len() <= outcomes.len(),
        forall|i: int|
            0 <= i < ingested(outcomes).len() ==> 1 <= #[trigger] ingested(outcomes)[i].0
                <= outcomes.len(),
    decreases outcomes.len(),
{
    if outcomes.len() > 0 {
        lemma_ingested_bounds(outcomes.drop_last());
    }
}

/// The lines read, numbered in order: line numbers rise strictly.
pub proof fn lemma_ingested_strictly_increasing(outcomes: Seq<Option<Seq<char>>>)
    ensures
        forall|i: int, j: int|
            0 <= i < j < ingested(outcomes).len() ==> ingested(outcomes)[i].0 < ingested(
                outcomes,
            )[j].0,
    decreases outcomes.len(),
{
    if outcomes.len() > 0 {
        lemma_ingested_strictly_increasing(outcomes.drop_last());
        lemma_ingested_bounds(outcomes.drop_last());
    }
}

proof fn lemma_non_header_count_step(es: Seq<RowEntry>, i: int)
    requires
        0 <= i < es.len(),
    ensures
        non_header_count(es.take(i + 1)) == non_header_count(es.take(i)) + if is_header(es[i]) {
            0nat
        } else {
            1nat
        },
{
    assert(es.take(i + 1).drop_last() =~= es.take(i));
}

proof fn lemma_non_header_count_headers_between(es: Seq<RowEntry>, i: int, j: int)
    requires
        0 <= i < j <= es.len(),
        forall|k: int| i < k < j ==> is_header(#[trigger] es[k]),
    ensures
        non_header_count(es.take(j)) == non_header_count(es.take(i + 1)),
    decreases j - i,
{
    if j > i + 1 {
        lemma_non_header_count_headers_between(es, i, j - 1);
        lemma_non_header_count_step(es, j - 1);
    }
}

/// The numbering of rows: the data index is -1 exactly for the header line;
/// the first other row gets 0, and each further non-header row the next
/// number.
pub proof fn lemma_header_rule(es: Seq<RowEntry>)
    requires
        es.len() <= isize::MAX,
    ensures
        forall|i: int|
            0 <= i < es.len() ==> ((#[trigger] with_data_indices(es)[i]).data_index == -1
                <==> es[i].file_row == 1),
        forall|i: int|
            0 <= i < es.len() && !is_header(es[i]) && (forall|k: int|
                0 <= k < i ==> is_header(#[trigger] es[k])) ==> (#[trigger] with_data_indices(
                es,
            )[i]).data_index == 0,
        forall|i: int, j: int|
            0 <= i < j < es.len() && !is_header(es[i]) && !is_header(es[j]) && (forall|k: int|
                i < k < j ==> is_header(#[trigger] es[k])) ==> (#[trigger] with_data_indices(
                es,
            )[j]).data_index == (#[trigger] with_data_indices(es)[i]).data_index + 1,
{
    let rs = with_data_indices(es);
    assert forall|i: int| 0 <= i < es.len() implies ((#[trigger] rs[i]).data_index == -1 <==> es[i].file_row
        == 1) by {
        lemma_non_header_count_bound(es.take(i));
    }
    assert forall|i: int|
        0 <= i < es.len() && !is_header(es[i]) && (forall|k: int|
            0 <= k < i ==> is_header(#[trigger] es[k])) implies (#[trigger] rs[i]).data_index == 0 by {
        if i > 0 {
            lemma_non_header_count_headers_between(es, 0, i);
            lemma_non_header_count_step(es, 0);
            assert(es.take(0) =~= Seq::<RowEntry>::empty());
        } else {
            assert(es.take(0) =~= Seq::<RowEntry>::empty());
        }
    }
    assert forall|i: int, j: int|
        0 <= i < j < es.len() && !is_header(es[i]) && !is_header(es[j]) && (forall|k: int|
            i < k < j ==> is_header(#[trigger] es[k])) implies (#[trigger] rs[j]).data_index == (
    #[trigger] rs[i]).data_index + 1 by {
        lemma_non_header_count_headers_between(es, i, j);
        lemma_non_header_count_step(es, i);
        lemma_non_header_count_bound(es.take(j));
        lemma_non_header_count_bound(es.take(i));
    }
}

/// Numbering the entries keeps them: the records' entries are the entries.
pub proof fn lemma_record_entries_of_indices(es: Seq<RowEntry>)
    ensures
        record_entries(with_data_indices(es)) == es,
{
    assert(record_entries(with_data_indices(es)) =~= es);
}

/// The corpus of one input: its rows in file order and their character total.
pub struct Corpus {
    pub records: Vec<RowRecord>,
    pub total_chars: u128,
}

/// The result of reading a whole source: the lines read and the number of
/// lines that failed.
pub struct Ingested {
    pub lines: Vec<SourceLine>,
    pub error_count: usize,
}

/// Numbers the read outcomes of a source (`None` for a line that could not be
/// read), keeping the lines that were read and counting the failures.
pub fn ingest_lines(outcomes: &Vec<Option<String>>) -> (r: Ingested)
    ensures
        lines_view(r.lines@) == ingested(outcomes_view(outcomes@)),
        r.error_count == read_errors(outcomes_view(outcomes@)),
{
    let ghost os = outcomes_view(outcomes@);
    let mut lines: Vec<SourceLine> = Vec::new();
    let mut error_count: usize = 0;
    let mut i: usize = 0;
    while i < outcomes.len()
        invariant
            i <= outcomes.len(),
            os == outcomes_view(outcomes@),
            lines_view(lines@) == ingested(os.take(i as int)),
            error_count == read_errors(os.take(i as int)),
            error_count <= i,
        decreases outcomes.len() - i,
    {
        proof {
            assert(os.take(i + 1).drop_last() =~= os.take(i as int));
        }
        match &outcomes[i] {
            Some(t) => {
                let line = SourceLine { file_row: i + 1, text: t.clone() };
                let ghost before = lines@;
                lines.push(line);
                proof {
                    assert(lines_view(lines@) =~= lines_view(before).push(line_view(line)));
                }
            },
            None => {
                error_count = error_count + 1;
            },
        }
        i = i + 1;
    }
    assert(os.take(outcomes.len() as int) =~= os);
    Ingested { lines, error_count }
}

} // verus!
