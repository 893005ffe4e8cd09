//! Single-threaded mode: rows are counted one line at a time, without keeping
//! the text of the lines.
use vstd::prelude::*;
use crate::rows::{
    Corpus, RowEntry, RowRecord, corpus_records, entries_of, ingested, lemma_ingested_bounds,
    lemma_non_header_count_bound, lemma_read_errors_bound, lemma_record_entries_of_indices,
    lemma_total_chars_bound, lemma_with_data_indices_push, non_header_count, read_errors,
    record_entries, total_chars, with_data_indices,
};

verus! {

/// Builds the corpus line by line as the source is read.
pub struct StreamingCounter {
    records: Vec<RowRecord>,
    total_chars: u128,
    error_count: usize,
    lines_seen: usize,
    data_rows: usize,
    outcomes: Ghost<Seq<Option<Seq<char>>>>,
}

impl StreamingCounter {
    /// The read outcomes seen so far, in order (`None` for a failed line).
    pub closed spec fn outcomes(&self) -> Seq<Option<Seq<char>>> {
        self.outcomes@
    }

    pub closed spec fn wf(&self) -> bool {
        let es = entries_of(ingested(self.outcomes@));
        &&& self.outcomes@.len() == self.lines_seen
        &&& self.records@ == with_data_indices(es)
        &&& self.total_chars == total_chars(es)
        &&& self.error_count == read_errors(self.outcomes@)
        &&& self.data_rows == non_header_count(es)
    }

    pub fn new() -> (r: Self)
        ensures
            r.wf(),
            r.outcomes() == Seq::<Option<Seq<char>>>::empty(),
    {
        let r = StreamingCounter {
            records: Vec::new(),
            total_chars: 0,
            error_count: 0,
            lines_seen: 0,
            data_rows: 0,
            outcomes: Ghost(Seq::empty()),
        };
        assert(ingested(Seq::empty()) == Seq::<(int, Seq<char>)>::empty());
        assert(entries_of(Seq::empty()) =~= Seq::<RowEntry>::empty());
        assert(with_data_indices(Seq::<RowEntry>::empty()) =~= Seq::<RowRecord>::empty());
        r
    }

    /// The number of lines seen, read or failed.
    pub fn lines_seen(&self) -> (r: usize)
        requires
            self.wf(),
        ensures
            r == self.outcomes().len(),
    {
        self.lines_seen
    }

    proof fn lemma_bounds(&self)
        requires
            self.wf(),
        ensures
            entries_of(ingested(self.outcomes@)).len() <= self.lines_seen,
            self.data_rows <= self.lines_seen,
            self.total_chars <= self.lines_seen * (usize::MAX as nat),
    {
        let es = entries_of(ingested(self.outcomes@));
        lemma_ingested_bounds(self.outcomes@);
        lemma_non_header_count_bound(es);
        lemma_total_chars_bound(es);
        assert(es.len() * (usize::MAX as nat) <= self.lines_seen * (usize::MAX as nat))
            by (nonlinear_arith)
            requires
                es.len() <= self.lines_seen,
        ;
    }

    /// Takes the next line of the source, read successfully.
    pub fn accept_line(&mut self, text: &str)
        requires
            old(self).wf(),
            old(self).outcomes().len() < isize::MAX,
        ensures
            final(self).wf(),
            final(self).outcomes() == old(self).outcomes().push(Some(text@)),
    {
        proof {
            self.lemma_bounds();
        }
        let ghost os = self.outcomes@;
        let ghost es = entries_of(ingested(os));
        let n = text.unicode_len();
        let file_row = self.lines_seen + 1;
        let e = RowEntry { file_row, char_count: n };
        let data_index: isize = if file_row == 1 {
            -1
        } else {
            self.data_rows as isize
        };
        self.records.push(RowRecord { file_row, data_index, char_count: n });
        assert(self.total_chars + n <= (self.lines_seen + 1) * (usize::MAX as nat)) by {
            assert((self.lines_seen + 1) * (usize::MAX as nat) == self.lines_seen * (
            usize::MAX as nat) + usize::MAX as nat) by (nonlinear_arith);
        }
        assert((self.lines_seen + 1) * (usize::MAX as nat) <= u128::MAX) by {
            assert(self.lines_seen + 1 <= usize::MAX);
            assert((self.lines_seen + 1) * (usize::MAX as nat) <= (usize::MAX as nat) * (
            usize::MAX as nat)) by (nonlinear_arith)
                requires
                    self.lines_seen + 1 <= usize::MAX,
            ;
            assert((usize::MAX as nat) * (usize::MAX as nat) <= u128::MAX) by (nonlinear_arith)
                requires
                    usize::MAX <= u64::MAX,
            ;
        }
        self.total_chars = self.total_chars + n as u128;
        if file_row != 1 {
            self.data_rows = self.data_rows + 1;
        }
        self.lines_seen = file_row;
        self.outcomes = Ghost(os.push(Some(text@)));
        proof {
            let os2 = os.push(Some(text@));
            assert(os2.drop_last() =~= os);
            assert(ingested(os2) == ingested(os).push((os2.len() as int, text@)));
            assert(entries_of(ingested(os2)) =~= es.push(e));
            assert(es.push(e).drop_last() =~= es);
            lemma_with_data_indices_push(es, e);
        }
    }

    /// Takes the next line of the source, which could not be read: it is
    /// counted and leaves no row.
    pub fn record_read_error(&mut self)
        requires
            old(self).wf(),
            old(self).outcomes().len() < isize::MAX,
        ensures
            final(self).wf(),
            final(self).outcomes() == old(self).outcomes().push(None),
    {
        proof {
            lemma_ingested_bounds(self.outcomes@);
        }
        let ghost os = self.outcomes@;
        assert(self.error_count <= self.lines_seen) by {
            lemma_read_errors_bound(os);
        }
        self.error_count = self.error_count + 1;
        self.lines_seen = self.lines_seen + 1;
        self.outcomes = Ghost(os.push(None));
        proof {
            assert(os.push(None).drop_last() =~= os);
        }
    }

    /// The number of lines that could not be read.
    pub fn error_count(&self) -> (r: usize)
        requires
            self.wf(),
        ensures
            r == read_errors(self.outcomes()),
    {
        self.error_count
    }

    /// Ends the run and hands out the corpus.
    pub fn finish(self) -> (r: Corpus)
        requires
            self.wf(),
        ensures
            r.records@ == corpus_records(self.outcomes()),
            r.total_chars == total_chars(entries_of(ingested(self.outcomes()))),
            r.total_chars == total_chars(record_entries(r.records@)),
    {
        proof {
            lemma_record_entries_of_indices(entries_of(ingested(self.outcomes@)));
        }
        Corpus { records: self.records, total_chars: self.total_chars }
    }
}

} // verus!
