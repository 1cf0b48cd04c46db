//! A source over entries held in memory.

use crate::iterators::{StorageError, StorageIterator};
use vstd::prelude::*;

verus! {

/// The entries that `entries` holds, as pairs of byte strings.
pub open spec fn entries_view(entries: Seq<(Vec<u8>, Vec<u8>)>) -> Seq<(Seq<u8>, Seq<u8>)> {
    Seq::new(entries.len(), |i: int| (entries[i].0@, entries[i].1@))
}

/// Walks a run of entries held in memory. A run may have been cut short by a
/// failure of whatever it was read from: the iterator shows the entries that
/// were read and reports the failure when it is advanced past the last one.
pub struct RunIterator {
    entries: Vec<(Vec<u8>, Vec<u8>)>,
    at: usize,
    failure: Option<StorageError>,
}

impl RunIterator {
    /// The entries of the run.
    pub closed spec fn entries(&self) -> Seq<(Seq<u8>, Seq<u8>)> {
        entries_view(self.entries@)
    }

    /// The index of the current entry; the number of entries at the end.
    pub closed spec fn position(&self) -> nat {
        self.at as nat
    }

    /// The failure that cut the run short and has not been reported yet.
    pub closed spec fn failure(&self) -> Option<StorageError> {
        self.failure
    }

    /// An iterator on the first entry of a whole run.
    pub fn new(entries: Vec<(Vec<u8>, Vec<u8>)>) -> (iter: Self)
        ensures
            iter.wf(),
            iter.entries() == entries_view(entries@),
            iter.position() == 0,
            iter.failure() is None,
            iter.remaining() == entries_view(entries@),
    {
        let iter = RunIterator { entries, at: 0, failure: None };
        assert(iter.remaining() =~= entries_view(entries@));
        iter
    }

    /// An iterator on the first entry of a run that `failure` cut short
    /// after the given entries.
    pub fn cut_short(entries: Vec<(Vec<u8>, Vec<u8>)>, failure: StorageError) -> (iter: Self)
        ensures
            iter.wf(),
            iter.entries() == entries_view(entries@),
            iter.position() == 0,
            iter.failure() == Some(failure),
            iter.remaining() == entries_view(entries@),
    {
        let iter = RunIterator { entries, at: 0, failure: Some(failure) };
        assert(iter.remaining() =~= entries_view(entries@));
        iter
    }
}

impl StorageIterator for RunIterator {
    closed spec fn wf(&self) -> bool {
        self.at <= self.entries@.len()
    }

    open spec fn remaining(&self) -> Seq<(Seq<u8>, Seq<u8>)> {
        self.entries().skip(self.position() as int)
    }

    open spec fn active(&self) -> nat {
        1
    }

    open spec fn unfailing(&self) -> bool {
        self.failure() is None
    }

    fn is_valid(&self) -> (valid: bool) {
        self.at < self.entries.len()
    }

    fn key(&self) -> (key: &[u8]) {
        self.entries[self.at].0.as_slice()
    }

    fn value(&self) -> (value: &[u8]) {
        self.entries[self.at].1.as_slice()
    }

    /// Moves to the next entry; at the end nothing changes. Moving past the
    /// last entry of a run that was cut short reports the failure, once.
    fn next(&mut self) -> (outcome: Result<(), StorageError>)
        ensures
            final(self).wf(),
            final(self).entries() == old(self).entries(),
            old(self).remaining().len() == 0 ==> outcome is Ok && *final(self) == *old(self),
            old(self).remaining().len() > 0 ==> final(self).position() == old(self).position() + 1,
            old(self).remaining().len() == 1 && old(self).failure() is Some ==> outcome == Err::<
                (),
                StorageError,
            >(old(self).failure()->0) && final(self).failure() is None,
            !(old(self).remaining().len() == 1 && old(self).failure() is Some) ==> outcome is Ok
                && final(self).failure() == old(self).failure(),
    {
        if self.at < self.entries.len() {
            self.at += 1;
            assert(self.remaining() =~= old(self).remaining().drop_first());
            if self.at == self.entries.len() {
                match self.failure.take() {
                    Some(failure) => {
                        return Err(failure);
                    },
                    None => {},
                }
            }
        }
        Ok(())
    }

    fn num_active_iterators(&self) -> (count: usize) {
        1
    }
}

} // verus!
