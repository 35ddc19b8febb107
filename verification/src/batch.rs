//! The course of one run over the entries of the source directory.
//!
//! The files to process are fixed when the batch is planned. They are taken
//! in order, and the count of processed files rises by one for each that was
//! transformed in full.

use vstd::prelude::*;
use crate::entry::{eligible_count, is_selection, select, CandidateEntry};

verus! {

/// The files that a run processes, and how many of them are done.
pub struct Batch {
    chosen: Vec<usize>,
    done: usize,
}

impl Batch {
    #[verifier::type_invariant]
    spec fn in_range(&self) -> bool {
        self.done <= self.chosen.len()
    }

    /// The indices of the entries to process, in order.
    pub closed spec fn chosen(&self) -> Seq<usize> {
        self.chosen@
    }

    /// Number of files transformed so far.
    pub closed spec fn done(&self) -> nat {
        self.done as nat
    }

    /// Plans a run over `entries`, given in the order of the traversal.
    pub fn plan(entries: &Vec<CandidateEntry>) -> (batch: Batch)
        ensures
            is_selection(batch.chosen(), entries@),
            batch.done() == 0,
    {
        Batch { chosen: select(entries), done: 0 }
    }

    /// The index of the entry to transform next; `None` when every chosen
    /// file is done.
    pub fn next(&self) -> (next: Option<usize>)
        ensures
            self.done() <= self.chosen().len(),
            next == if self.done() < self.chosen().len() {
                Some(self.chosen()[self.done() as int])
            } else {
                None
            },
    {
        proof {
            use_type_invariant(self);
        }
        if self.done < self.chosen.len() {
            Some(self.chosen[self.done])
        } else {
            None
        }
    }

    /// Records that the file given by `next` was transformed. Where no file
    /// is left, nothing changes.
    pub fn completed(&mut self)
        ensures
            final(self).chosen() == old(self).chosen(),
            final(self).done() == if old(self).done() < old(self).chosen().len() {
                old(self).done() + 1
            } else {
                old(self).done()
            },
    {
        proof {
            use_type_invariant(&*self);
        }
        if self.done < self.chosen.len() {
            self.done = self.done + 1;
        }
    }

    /// The count of processed files.
    pub fn processed(&self) -> (count: usize)
        ensures
            count == self.done(),
            count <= self.chosen().len(),
    {
        proof {
            use_type_invariant(self);
        }
        self.done
    }
}

/// A batch that has no file left has processed as many files as there are
/// eligible entries.
pub proof fn lemma_finished_batch_counts_all(batch: Batch, entries: Seq<CandidateEntry>)
    requires
        is_selection(batch.chosen(), entries),
        batch.done() == batch.chosen().len(),
    ensures
        batch.done() == eligible_count(entries),
{
}

} // verus!
