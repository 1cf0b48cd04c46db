//! The contract that every sorted source of entries meets, and the failures
//! that advancing one can report.

pub mod merge_iterator;
pub mod run_iterator;
pub mod two_merge_iterator;

use crate::key::{key_lt, lemma_key_order_total, lemma_key_order_transitive};
use vstd::prelude::*;

verus! {

/// A failure reported by an iterator.
#[derive(Debug, PartialEq, Eq)]
pub enum StorageError {
    /// `next` was called on an iterator that had failed before.
    InvalidOperation,
    /// A source could not advance; the text says why.
    Source(String),
}

impl Clone for StorageError {
    fn clone(&self) -> (copy: Self)
        ensures
            copy == *self,
    {
        match self {
            StorageError::InvalidOperation => StorageError::InvalidOperation,
            StorageError::Source(text) => StorageError::Source(text.clone()),
        }
    }
}

/// Whether the keys of `entries` grow from each entry to the next, so that
/// none occurs twice.
pub open spec fn ascending(entries: Seq<(Seq<u8>, Seq<u8>)>) -> bool {
    forall|i: int, j: int|
        0 <= i < j < entries.len() ==> key_lt((#[trigger] entries[i]).0, (#[trigger] entries[j]).0)
}

/// Whether every key of `entries` comes after `key`.
pub open spec fn all_after(entries: Seq<(Seq<u8>, Seq<u8>)>, key: Seq<u8>) -> bool {
    forall|i: int| 0 <= i < entries.len() ==> key_lt(key, (#[trigger] entries[i]).0)
}

/// Whether some entry of `entries` has the key `key`.
pub open spec fn has_key(entries: Seq<(Seq<u8>, Seq<u8>)>, key: Seq<u8>) -> bool {
    exists|i: int| 0 <= i < entries.len() && (#[trigger] entries[i]).0 == key
}

/// An entry put before entries that all come after it, and that are
/// ascending, makes ascending entries.
pub proof fn lemma_ascending_cons(first: (Seq<u8>, Seq<u8>), rest: Seq<(Seq<u8>, Seq<u8>)>)
    requires
        ascending(rest),
        all_after(rest, first.0),
    ensures
        ascending(seq![first] + rest),
{
    let whole = seq![first] + rest;
    assert forall|i: int, j: int| 0 <= i < j < whole.len() implies key_lt(
        (#[trigger] whole[i]).0,
        (#[trigger] whole[j]).0,
    ) by {
        assert(whole[j] == rest[j - 1]);
        if i > 0 {
            assert(whole[i] == rest[i - 1]);
        }
    }
}

/// Of ascending entries, those after the first are ascending and come after
/// the first.
pub proof fn lemma_ascending_rest(entries: Seq<(Seq<u8>, Seq<u8>)>)
    requires
        ascending(entries),
        entries.len() > 0,
    ensures
        ascending(entries.drop_first()),
        all_after(entries.drop_first(), entries[0].0),
{
    let rest = entries.drop_first();
    assert forall|i: int, j: int| 0 <= i < j < rest.len() implies key_lt(
        (#[trigger] rest[i]).0,
        (#[trigger] rest[j]).0,
    ) by {
        assert(rest[i] == entries[i + 1]);
        assert(rest[j] == entries[j + 1]);
    }
    assert forall|i: int| 0 <= i < rest.len() implies key_lt(
        entries[0].0,
        (#[trigger] rest[i]).0,
    ) by {
        assert(rest[i] == entries[i + 1]);
    }
}

/// Entries that come after a key come after every key before it.
pub proof fn lemma_all_after_earlier(
    entries: Seq<(Seq<u8>, Seq<u8>)>,
    key: Seq<u8>,
    earlier: Seq<u8>,
)
    requires
        all_after(entries, key),
        key_lt(earlier, key),
    ensures
        all_after(entries, earlier),
{
    assert forall|i: int| 0 <= i < entries.len() implies key_lt(
        earlier,
        (#[trigger] entries[i]).0,
    ) by {
        lemma_key_order_transitive(earlier, key, entries[i].0);
    }
}

/// An entry is among entries with one put before them if it is the one put
/// before or among the others.
pub proof fn lemma_contains_cons(
    first: (Seq<u8>, Seq<u8>),
    rest: Seq<(Seq<u8>, Seq<u8>)>,
    entry: (Seq<u8>, Seq<u8>),
)
    ensures
        (seq![first] + rest).contains(entry) <==> entry == first || rest.contains(entry),
{
    let whole = seq![first] + rest;
    if whole.contains(entry) {
        let at = choose|at: int| 0 <= at < whole.len() && whole[at] == entry;
        if at > 0 {
            assert(rest[at - 1] == entry);
        }
    }
    if entry == first {
        assert(whole[0] == entry);
    }
    if rest.contains(entry) {
        let at = choose|at: int| 0 <= at < rest.len() && rest[at] == entry;
        assert(whole[at + 1] == entry);
    }
}

/// An entry, or a key, is among entries if it is the first or among the
/// others.
pub proof fn lemma_contains_first_or_rest(
    entries: Seq<(Seq<u8>, Seq<u8>)>,
    entry: (Seq<u8>, Seq<u8>),
)
    requires
        entries.len() > 0,
    ensures
        entries.contains(entry) <==> entry == entries[0] || entries.drop_first().contains(entry),
        has_key(entries, entry.0) <==> entries[0].0 == entry.0 || has_key(
            entries.drop_first(),
            entry.0,
        ),
{
    let rest = entries.drop_first();
    assert(entries =~= seq![entries[0]] + rest);
    lemma_contains_cons(entries[0], rest, entry);
    if has_key(entries, entry.0) {
        let at = choose|at: int| 0 <= at < entries.len() && (#[trigger] entries[at]).0 == entry.0;
        if at > 0 {
            assert(rest[at - 1].0 == entry.0);
        }
    }
    if has_key(rest, entry.0) {
        let at = choose|at: int| 0 <= at < rest.len() && (#[trigger] rest[at]).0 == entry.0;
        assert(entries[at + 1].0 == entry.0);
    }
    if entries[0].0 == entry.0 {
        assert(entries[0].0 == entry.0);
    }
}

/// Entries that all come after a key do not hold it, and each of them comes
/// after it.
pub proof fn lemma_all_after_members(entries: Seq<(Seq<u8>, Seq<u8>)>, key: Seq<u8>)
    requires
        all_after(entries, key),
    ensures
        !has_key(entries, key),
        forall|entry: (Seq<u8>, Seq<u8>)| #[trigger]
            entries.contains(entry) ==> key_lt(key, entry.0),
{
    lemma_key_order_total(key, key);
    assert forall|entry: (Seq<u8>, Seq<u8>)| #[trigger] entries.contains(entry) implies key_lt(
        key,
        entry.0,
    ) by {
        let at = choose|at: int| 0 <= at < entries.len() && entries[at] == entry;
        assert(key_lt(key, entries[at].0));
    }
}

/// Entries of which each one comes after a key all come after it.
pub proof fn lemma_all_after_from_members(entries: Seq<(Seq<u8>, Seq<u8>)>, key: Seq<u8>)
    requires
        forall|entry: (Seq<u8>, Seq<u8>)| #[trigger]
            entries.contains(entry) ==> key_lt(key, entry.0),
    ensures
        all_after(entries, key),
{
    assert forall|i: int| 0 <= i < entries.len() implies key_lt(
        key,
        (#[trigger] entries[i]).0,
    ) by {
        assert(entries.contains(entries[i]));
    }
}

/// A forward cursor over entries: pairs of a key and a value, where an empty
/// value marks a deleted key.
///
/// An iterator stands for the entries from its position on. It is valid
/// while there is one; `key` and `value` read the first of them, and a `next`
/// that succeeds on a valid iterator leaves the rest.
pub trait StorageIterator {
    /// What the implementation keeps true of itself.
    spec fn wf(&self) -> bool;

    /// The entries from the current position on, in the order in which the
    /// iterator yields them.
    spec fn remaining(&self) -> Seq<(Seq<u8>, Seq<u8>)>;

    /// Whether the iterator stands at an entry.
    fn is_valid(&self) -> (valid: bool)
        requires
            self.wf(),
        ensures
            valid == (self.remaining().len() > 0),
    ;

    /// The key of the current entry.
    fn key(&self) -> (key: &[u8])
        requires
            self.wf(),
            self.remaining().len() > 0,
        ensures
            key@ == self.remaining()[0].0,
    ;

    /// The value of the current entry.
    fn value(&self) -> (value: &[u8])
        requires
            self.wf(),
            self.remaining().len() > 0,
        ensures
            value@ == self.remaining()[0].1,
    ;

    /// Whether no advance of the iterator can fail, now or later. An
    /// iterator over what is held in memory is unfailing; one that reads as
    /// it goes is not.
    spec fn unfailing(&self) -> bool;

    /// Moves to the next entry. An unfailing iterator succeeds and stays
    /// unfailing. After a failure nothing is known of the iterator, and
    /// only `num_active_iterators` may still be called on it.
    fn next(&mut self) -> (outcome: Result<(), StorageError>)
        requires
            old(self).wf(),
        ensures
            outcome is Ok ==> final(self).wf(),
            outcome is Ok && old(self).remaining().len() > 0 ==> final(self).remaining() == old(
                self,
            ).remaining().drop_first(),
            old(self).unfailing() ==> outcome is Ok && final(self).unfailing(),
    ;

    /// The number of sources that the iterator counts as active.
    spec fn active(&self) -> nat;

    /// The number of active sources under this iterator, for diagnostics.
    fn num_active_iterators(&self) -> (count: usize)
        ensures
            count == self.active(),
    ;
}

} // verus!
