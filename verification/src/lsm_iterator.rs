//! The two outer layers of a scan: one hides deleted keys and stops at an
//! upper bound, the other refuses to go on after a failure.

use crate::codec::{bytes_as_slice, bytes_view};
use crate::iterators::{
    all_after, ascending, lemma_ascending_cons, lemma_ascending_rest, StorageError,
    StorageIterator,
};
use crate::key::{key_le, key_lt, lemma_key_order_total, lemma_key_order_transitive, precedes};
use bytes::Bytes;
use std::ops::Bound;
use vstd::prelude::*;

verus! {

/// `std::ops::Bound`, an enum of three variants that std defines in the
/// open: `Included` and `Excluded` with the limit, and `Unbounded`.
#[verifier::external_type_specification]
#[verifier::reject_recursive_types(T)]
pub struct ExBound<T>(Bound<T>);

/// An upper limit on the keys of a scan.
pub enum EndBound {
    /// No limit.
    Unbounded,
    /// Keys up to and with the given one.
    Included(Seq<u8>),
    /// Keys before the given one.
    Excluded(Seq<u8>),
}

impl EndBound {
    /// Whether `key` is within the limit.
    pub open spec fn admits(self, key: Seq<u8>) -> bool {
        match self {
            EndBound::Unbounded => true,
            EndBound::Included(limit) => key_le(key, limit),
            EndBound::Excluded(limit) => key_lt(key, limit),
        }
    }
}

/// The limit that `bound` sets.
pub open spec fn bound_view(bound: Bound<Bytes>) -> EndBound {
    match bound {
        Bound::Unbounded => EndBound::Unbounded,
        Bound::Included(limit) => EndBound::Included(bytes_view(limit)),
        Bound::Excluded(limit) => EndBound::Excluded(bytes_view(limit)),
    }
}

/// What a scan shows of `entries`: the entries before the first key beyond
/// the limit, without the deleted ones.
pub open spec fn visible(entries: Seq<(Seq<u8>, Seq<u8>)>, bound: EndBound) -> Seq<
    (Seq<u8>, Seq<u8>),
>
    decreases entries.len(),
{
    if entries.len() == 0 || !bound.admits(entries[0].0) {
        Seq::empty()
    } else if entries[0].1.len() == 0 {
        visible(entries.drop_first(), bound)
    } else {
        seq![entries[0]] + visible(entries.drop_first(), bound)
    }
}

/// The entries that are left once the deleted entries within the limit
/// that stand first have been passed.
pub open spec fn past_deleted(entries: Seq<(Seq<u8>, Seq<u8>)>, bound: EndBound) -> Seq<
    (Seq<u8>, Seq<u8>),
>
    decreases entries.len(),
{
    if entries.len() > 0 && bound.admits(entries[0].0) && entries[0].1.len() == 0 {
        past_deleted(entries.drop_first(), bound)
    } else {
        entries
    }
}

/// Passing the deleted entries that stand first does not change what a scan
/// shows. What is left starts with the first entry shown, if there is one;
/// there is none if nothing is left or the first key left is beyond the
/// limit.
pub proof fn lemma_past_deleted(entries: Seq<(Seq<u8>, Seq<u8>)>, bound: EndBound)
    ensures
        visible(past_deleted(entries, bound), bound) == visible(entries, bound),
        ({
            let left = past_deleted(entries, bound);
            let shown = visible(entries, bound);
            if left.len() > 0 && bound.admits(left[0].0) {
                &&& left[0].1.len() > 0
                &&& shown.len() > 0
                &&& shown[0] == left[0]
                &&& shown.drop_first() == visible(left.drop_first(), bound)
            } else {
                shown.len() == 0
            }
        }),
    decreases entries.len(),
{
    if entries.len() > 0 && bound.admits(entries[0].0) {
        if entries[0].1.len() == 0 {
            lemma_past_deleted(entries.drop_first(), bound);
        } else {
            assert(visible(entries, bound).drop_first() =~= visible(entries.drop_first(), bound));
        }
    }
}

/// A scan shows only entries of its source that are not deleted and whose
/// keys are within the limit; of entries that all come after a key, it
/// shows only such entries.
pub proof fn lemma_visible_entries(entries: Seq<(Seq<u8>, Seq<u8>)>, bound: EndBound)
    ensures
        forall|i: int|
            0 <= i < visible(entries, bound).len() ==> {
                let shown = #[trigger] visible(entries, bound)[i];
                &&& shown.1.len() > 0
                &&& bound.admits(shown.0)
                &&& entries.contains(shown)
            },
        forall|key: Seq<u8>|
            all_after(entries, key) ==> #[trigger] all_after(visible(entries, bound), key),
    decreases entries.len(),
{
    let shown = visible(entries, bound);
    if entries.len() > 0 && bound.admits(entries[0].0) {
        let rest = entries.drop_first();
        let later = visible(rest, bound);
        lemma_visible_entries(rest, bound);
        assert forall|i: int| 0 <= i < later.len() implies entries.contains(
            #[trigger] later[i],
        ) by {
            assert(rest.contains(later[i]));
            let at = choose|at: int| 0 <= at < rest.len() && rest[at] == later[i];
            assert(entries[at + 1] == later[i]);
        }
        if entries[0].1.len() > 0 {
            assert(entries.contains(entries[0]));
            assert forall|i: int| 0 <= i < shown.len() implies ({
                let e = #[trigger] shown[i];
                e.1.len() > 0 && bound.admits(e.0) && entries.contains(e)
            }) by {
                if i > 0 {
                    assert(shown[i] == later[i - 1]);
                }
            }
        }
        assert forall|key: Seq<u8>| all_after(entries, key) implies #[trigger] all_after(
            shown,
            key,
        ) by {
            assert forall|i: int| 0 <= i < rest.len() implies key_lt(
                key,
                (#[trigger] rest[i]).0,
            ) by {
                assert(rest[i] == entries[i + 1]);
            }
            assert(all_after(later, key));
            assert forall|i: int| 0 <= i < shown.len() implies key_lt(
                key,
                (#[trigger] shown[i]).0,
            ) by {
                if entries[0].1.len() > 0 {
                    if i > 0 {
                        assert(shown[i] == later[i - 1]);
                    } else {
                        assert(shown[0] == entries[0]);
                    }
                }
            }
        }
    }
}

/// A key before one that is within the limit is within the limit.
pub proof fn lemma_bound_admits_earlier(bound: EndBound, key: Seq<u8>, earlier: Seq<u8>)
    requires
        bound.admits(key),
        key_lt(earlier, key),
    ensures
        bound.admits(earlier),
{
    match bound {
        EndBound::Unbounded => {},
        EndBound::Included(limit) => {
            lemma_key_order_total(key, limit);
            lemma_key_order_total(earlier, limit);
            if key != limit {
                lemma_key_order_transitive(earlier, key, limit);
            }
        },
        EndBound::Excluded(limit) => {
            lemma_key_order_transitive(earlier, key, limit);
        },
    }
}

/// Over a source with ascending keys a scan is exact: what it shows is
/// ascending, and it shows an entry if and only if the source has it, it is
/// not deleted, and its key is within the limit.
pub proof fn lemma_visible_exact(entries: Seq<(Seq<u8>, Seq<u8>)>, bound: EndBound)
    requires
        ascending(entries),
    ensures
        ascending(visible(entries, bound)),
        forall|entry: (Seq<u8>, Seq<u8>)|
            #[trigger] visible(entries, bound).contains(entry) <==> entries.contains(entry)
                && entry.1.len() > 0 && bound.admits(entry.0),
    decreases entries.len(),
{
    let shown = visible(entries, bound);
    lemma_visible_entries(entries, bound);
    if entries.len() > 0 {
        let rest = entries.drop_first();
        let later = visible(rest, bound);
        lemma_ascending_rest(entries);
        lemma_visible_exact(rest, bound);
        lemma_visible_entries(rest, bound);
        assert(all_after(later, entries[0].0));
        if bound.admits(entries[0].0) && entries[0].1.len() > 0 {
            lemma_ascending_cons(entries[0], later);
        }
        assert forall|entry: (Seq<u8>, Seq<u8>)|
            entries.contains(entry) && entry.1.len() > 0 && bound.admits(
                entry.0,
            ) implies #[trigger] shown.contains(entry) by {
            let at = choose|at: int| 0 <= at < entries.len() && entries[at] == entry;
            if at == 0 {
                assert(shown[0] == entry);
            } else {
                assert(rest[at - 1] == entry);
                assert(rest.contains(entry));
                lemma_bound_admits_earlier(bound, entry.0, entries[0].0);
                assert(later.contains(entry));
                let shown_at = choose|k: int| 0 <= k < later.len() && later[k] == entry;
                if entries[0].1.len() > 0 {
                    assert(shown[shown_at + 1] == entry);
                }
            }
        }
    }
    assert forall|entry: (Seq<u8>, Seq<u8>)| #[trigger]
        shown.contains(entry) implies entries.contains(entry) && entry.1.len() > 0
        && bound.admits(entry.0) by {
        let at = choose|at: int| 0 <= at < shown.len() && shown[at] == entry;
        assert(shown[at] == entry);
    }
}

/// The entries without the deleted ones.
pub open spec fn without_deleted(entries: Seq<(Seq<u8>, Seq<u8>)>) -> Seq<(Seq<u8>, Seq<u8>)>
    decreases entries.len(),
{
    if entries.len() == 0 {
        Seq::empty()
    } else if entries[0].1.len() == 0 {
        without_deleted(entries.drop_first())
    } else {
        seq![entries[0]] + without_deleted(entries.drop_first())
    }
}

/// The number of entries that stand before the first key beyond the limit.
pub open spec fn admitted_len(entries: Seq<(Seq<u8>, Seq<u8>)>, bound: EndBound) -> nat
    decreases entries.len(),
{
    if entries.len() == 0 || !bound.admits(entries[0].0) {
        0
    } else {
        1 + admitted_len(entries.drop_first(), bound)
    }
}

/// A scan shows the entries before the first key beyond the limit, without
/// the deleted ones.
pub proof fn lemma_visible_is_live_prefix(entries: Seq<(Seq<u8>, Seq<u8>)>, bound: EndBound)
    ensures
        admitted_len(entries, bound) <= entries.len(),
        visible(entries, bound) == without_deleted(
            entries.take(admitted_len(entries, bound) as int),
        ),
    decreases entries.len(),
{
    let count = admitted_len(entries, bound) as int;
    if entries.len() == 0 || !bound.admits(entries[0].0) {
        assert(entries.take(0).len() == 0);
    } else {
        let rest = entries.drop_first();
        lemma_visible_is_live_prefix(rest, bound);
        assert(entries.take(count).drop_first() =~= rest.take(count - 1));
        assert(entries.take(count)[0] == entries[0]);
    }
}

/// Without a limit a scan shows every entry that is not deleted.
pub proof fn lemma_visible_unbounded(entries: Seq<(Seq<u8>, Seq<u8>)>)
    ensures
        admitted_len(entries, EndBound::Unbounded) == entries.len(),
        visible(entries, EndBound::Unbounded) == without_deleted(entries),
    decreases entries.len(),
{
    if entries.len() > 0 {
        lemma_visible_unbounded(entries.drop_first());
    }
}

/// Over ascending keys, the entries before a limit set at the key of the
/// entry at `at` are the first `at` where the limit is excluded, and those
/// with the entry at `at` where it is included.
pub proof fn lemma_admitted_up_to(entries: Seq<(Seq<u8>, Seq<u8>)>, at: int)
    requires
        ascending(entries),
        0 <= at < entries.len(),
    ensures
        admitted_len(entries, EndBound::Excluded(entries[at].0)) == at,
        admitted_len(entries, EndBound::Included(entries[at].0)) == at + 1,
    decreases entries.len(),
{
    let limit = entries[at].0;
    let rest = entries.drop_first();
    lemma_ascending_rest(entries);
    lemma_key_order_total(limit, limit);
    if at == 0 {
        if rest.len() > 0 {
            assert(key_lt(limit, rest[0].0));
            lemma_key_order_total(rest[0].0, limit);
        }
        assert(admitted_len(rest, EndBound::Included(limit)) == 0);
    } else {
        assert(rest[at - 1] == entries[at]);
        lemma_admitted_up_to(rest, at - 1);
        assert(key_lt(entries[0].0, limit));
        lemma_key_order_total(entries[0].0, limit);
    }
}

/// Whether `key` is within `bound`.
pub fn within_bound(bound: &Bound<Bytes>, key: &[u8]) -> (within: bool)
    ensures
        within == bound_view(*bound).admits(key@),
{
    match bound {
        Bound::Unbounded => true,
        Bound::Included(limit) => !precedes(bytes_as_slice(limit), key),
        Bound::Excluded(limit) => precedes(key, bytes_as_slice(limit)),
    }
}

/// A scan over a sorted source that hides deleted keys and ends at an upper
/// bound.
pub struct LsmIterator<I: StorageIterator> {
    inner: I,
    end_bound: Bound<Bytes>,
    is_valid: bool,
}

impl<I: StorageIterator> LsmIterator<I> {
    /// The source under the scan.
    pub closed spec fn inner(&self) -> I {
        self.inner
    }

    /// The limit of the scan.
    pub closed spec fn end_bound(&self) -> EndBound {
        bound_view(self.end_bound)
    }

    /// Whether the scan stands at an entry.
    pub closed spec fn stands(&self) -> bool {
        self.is_valid
    }

    /// Whether the scan is placed on its source: the source is well formed,
    /// and the scan stands if and only if the source has an entry whose key
    /// is within the limit.
    pub open spec fn placed(&self) -> bool {
        &&& self.inner().wf()
        &&& self.stands() == (self.inner().remaining().len() > 0 && self.end_bound().admits(
            self.inner().remaining()[0].0,
        ))
    }

    /// A scan of `iter` up to `end_bound`, placed on the first entry of
    /// `iter` that is not deleted, if its key is within the bound. Fails
    /// only if `iter` fails to advance past a deleted entry.
    pub fn new(iter: I, end_bound: Bound<Bytes>) -> (made: Result<Self, StorageError>)
        requires
            iter.wf(),
        ensures
            match made {
                Ok(scan) => {
                    &&& scan.wf()
                    &&& scan.end_bound() == bound_view(end_bound)
                    &&& scan.remaining() == visible(iter.remaining(), bound_view(end_bound))
                    &&& scan.inner().remaining() == past_deleted(
                        iter.remaining(),
                        bound_view(end_bound),
                    )
                    &&& iter.unfailing() ==> scan.unfailing()
                },
                Err(_) => {
                    &&& iter.remaining().len() > 0
                    &&& bound_view(end_bound).admits(iter.remaining()[0].0)
                    &&& iter.remaining()[0].1.len() == 0
                    &&& !iter.unfailing()
                },
            },
    {
        let is_valid = iter.is_valid() && within_bound(&end_bound, iter.key());
        let mut scan = LsmIterator { end_bound, is_valid, inner: iter };
        proof {
            lemma_past_deleted(iter.remaining(), bound_view(end_bound));
        }
        match scan.skip_deleted() {
            Ok(()) => Ok(scan),
            Err(error) => Err(error),
        }
    }

    /// Passes the deleted entries at the position of the scan: the source
    /// is advanced past the deleted entries within the limit that stand
    /// first, and no further. A scan that does not stand, or that stands at
    /// an entry that is not deleted, is left as it is.
    fn skip_deleted(&mut self) -> (outcome: Result<(), StorageError>)
        requires
            old(self).placed(),
        ensures
            final(self).end_bound() == old(self).end_bound(),
            !(old(self).stands() && old(self).inner().remaining()[0].1.len() == 0) ==> {
                &&& outcome is Ok
                &&& final(self).inner() == old(self).inner()
                &&& final(self).stands() == old(self).stands()
            },
            outcome is Ok ==> {
                &&& final(self).wf()
                &&& final(self).inner().remaining() == past_deleted(
                    old(self).inner().remaining(),
                    old(self).end_bound(),
                )
            },
            old(self).inner().unfailing() ==> outcome is Ok && final(self).inner().unfailing(),
    {
        while self.is_valid && self.inner.value().is_empty()
            invariant
                self.placed(),
                old(self).inner().unfailing() ==> self.inner().unfailing(),
                self.end_bound() == old(self).end_bound(),
                past_deleted(self.inner().remaining(), self.end_bound()) == past_deleted(
                    old(self).inner().remaining(),
                    old(self).end_bound(),
                ),
                !(old(self).stands() && old(self).inner().remaining()[0].1.len() == 0)
                    ==> self.inner() == old(self).inner() && self.stands() == old(self).stands(),
            decreases self.inner().remaining().len(),
        {
            match self.next_inner() {
                Ok(()) => {},
                Err(error) => {
                    return Err(error);
                },
            }
        }
        Ok(())
    }

    /// Advances the source by one entry and holds the entry reached against
    /// the bound: where the source advances, the scan stands if and only if
    /// an entry is left and its key is within the bound. Where the source
    /// fails, the scan stands as it did.
    fn next_inner(&mut self) -> (outcome: Result<(), StorageError>)
        requires
            old(self).inner().wf(),
            old(self).stands(),
            old(self).inner().remaining().len() > 0,
        ensures
            final(self).end_bound() == old(self).end_bound(),
            outcome is Ok ==> {
                let left = old(self).inner().remaining().drop_first();
                &&& final(self).inner().wf()
                &&& final(self).inner().remaining() == left
                &&& final(self).stands() == (left.len() > 0 && old(self).end_bound().admits(
                    left[0].0,
                ))
            },
            outcome is Err ==> final(self).stands() == old(self).stands(),
            old(self).inner().unfailing() ==> outcome is Ok && final(self).inner().unfailing(),
    {
        let advanced = self.inner.next();
        self.place(advanced)
    }

    /// Places the scan after the source has answered an advance, and passes
    /// the answer on: the scan stands at the entry reached if the source
    /// advanced, has an entry, and its key is within the bound.
    fn place(&mut self, advanced: Result<(), StorageError>) -> (outcome: Result<(), StorageError>)
        requires
            advanced is Ok ==> old(self).inner().wf(),
        ensures
            outcome == advanced,
            final(self).inner() == old(self).inner(),
            final(self).end_bound() == old(self).end_bound(),
            advanced is Err ==> final(self).stands() == old(self).stands(),
            advanced is Ok ==> final(self).stands() == {
                &&& old(self).inner().remaining().len() > 0
                &&& old(self).end_bound().admits(old(self).inner().remaining()[0].0)
            },
    {
        if advanced.is_err() {
            return advanced;
        }
        if !self.inner.is_valid() {
            self.is_valid = false;
            return advanced;
        }
        self.is_valid = within_bound(&self.end_bound, self.inner.key());
        advanced
    }
}

impl<I: StorageIterator> StorageIterator for LsmIterator<I> {
    open spec fn wf(&self) -> bool {
        &&& self.placed()
        &&& self.stands() ==> self.inner().remaining()[0].1.len() > 0
    }

    open spec fn active(&self) -> nat {
        self.inner().active()
    }

    open spec fn unfailing(&self) -> bool {
        self.inner().unfailing()
    }

    open spec fn remaining(&self) -> Seq<(Seq<u8>, Seq<u8>)> {
        visible(self.inner().remaining(), self.end_bound())
    }

    fn is_valid(&self) -> (valid: bool)
        ensures
            valid == self.stands(),
    {
        self.is_valid
    }

    fn key(&self) -> (key: &[u8]) {
        self.inner.key()
    }

    fn value(&self) -> (value: &[u8]) {
        self.inner.value()
    }

    /// Moves to the next entry that is not deleted, if its key is within
    /// the bound: the source is advanced by one entry and past the deleted
    /// entries within the bound that follow. A scan that does not stand is
    /// left as it is.
    fn next(&mut self) -> (outcome: Result<(), StorageError>)
        ensures
            final(self).end_bound() == old(self).end_bound(),
            !old(self).stands() ==> outcome is Ok && final(self).inner() == old(self).inner()
                && !final(self).stands(),
            outcome is Ok && old(self).stands() ==> final(self).inner().remaining()
                == past_deleted(
                old(self).inner().remaining().drop_first(),
                old(self).end_bound(),
            ),
    {
        if !self.is_valid {
            return Ok(());
        }
        proof {
            lemma_past_deleted(old(self).inner().remaining().drop_first(), old(self).end_bound());
            assert(old(self).remaining().drop_first() =~= visible(
                old(self).inner().remaining().drop_first(),
                old(self).end_bound(),
            ));
        }
        match self.next_inner() {
            Ok(()) => {},
            Err(error) => {
                return Err(error);
            },
        }
        match self.skip_deleted() {
            Ok(()) => Ok(()),
            Err(error) => Err(error),
        }
    }

    fn num_active_iterators(&self) -> (count: usize) {
        self.inner.num_active_iterators()
    }
}

/// Guards an iterator against use after a failure: once the wrapped
/// iterator has failed to advance, this one is invalid for good and refuses
/// every further advance.
pub struct FusedIterator<I: StorageIterator> {
    iter: I,
    has_errored: bool,
}

/// Whether a fused iterator stands at an entry: it has not failed and the
/// wrapped iterator has entries left.
pub open spec fn fused_is_valid(errored: bool, inner: Seq<(Seq<u8>, Seq<u8>)>) -> bool {
    !errored && inner.len() > 0
}

/// What `next` on a fused iterator returns, where `advanced` is what the
/// wrapped iterator returns if it is asked to advance: the refusal after a
/// failure, success without asking when nothing is left, and otherwise what
/// the wrapped iterator said.
pub open spec fn fused_outcome(
    errored: bool,
    inner: Seq<(Seq<u8>, Seq<u8>)>,
    advanced: Result<(), StorageError>,
) -> Result<(), StorageError> {
    if errored {
        Err(StorageError::InvalidOperation)
    } else if inner.len() == 0 {
        Ok(())
    } else {
        advanced
    }
}

/// Whether a fused iterator has failed after `next`.
pub open spec fn fused_errored_after(
    errored: bool,
    inner: Seq<(Seq<u8>, Seq<u8>)>,
    advanced: Result<(), StorageError>,
) -> bool {
    errored || (inner.len() > 0 && advanced is Err)
}

/// A failure is permanent: a fused iterator that has failed is invalid,
/// answers `next` with the refusal whatever the wrapped iterator would say,
/// and has still failed afterwards.
pub proof fn lemma_failure_is_permanent(
    inner: Seq<(Seq<u8>, Seq<u8>)>,
    advanced: Result<(), StorageError>,
)
    ensures
        !fused_is_valid(true, inner),
        fused_outcome(true, inner, advanced) == Err::<(), StorageError>(
            StorageError::InvalidOperation,
        ),
        fused_errored_after(true, inner, advanced),
{
}

/// The failure of the wrapped iterator is passed on once and marks the fused
/// iterator as failed.
pub proof fn lemma_failure_is_recorded(
    inner: Seq<(Seq<u8>, Seq<u8>)>,
    error: StorageError,
)
    requires
        inner.len() > 0,
    ensures
        fused_outcome(false, inner, Err(error)) == Err::<(), StorageError>(error),
        fused_errored_after(false, inner, Err(error)),
{
}

/// At the end nothing happens: `next` on a fused iterator that has not failed
/// and has nothing left succeeds and leaves it as it was, not failed.
pub proof fn lemma_exhausted_next_is_idle(advanced: Result<(), StorageError>)
    ensures
        fused_outcome(false, Seq::empty(), advanced) == Ok::<(), StorageError>(()),
        !fused_errored_after(false, Seq::empty(), advanced),
{
}

impl<I: StorageIterator> FusedIterator<I> {
    /// The wrapped iterator.
    pub closed spec fn inner(&self) -> I {
        self.iter
    }

    /// Whether the wrapped iterator has failed to advance.
    pub closed spec fn has_errored(&self) -> bool {
        self.has_errored
    }

    /// Wraps `iter`, which has not failed.
    pub fn new(iter: I) -> (fused: Self)
        requires
            iter.wf(),
        ensures
            fused.wf(),
            fused.inner() == iter,
            !fused.has_errored(),
    {
        FusedIterator { iter, has_errored: false }
    }

    /// Takes note of what the wrapped iterator answered to an advance, and
    /// passes the answer on: a failure marks this iterator as failed.
    pub fn record(&mut self, advanced: Result<(), StorageError>) -> (outcome: Result<
        (),
        StorageError,
    >)
        ensures
            outcome == advanced,
            final(self).inner() == old(self).inner(),
            final(self).has_errored() == (old(self).has_errored() || advanced is Err),
    {
        if advanced.is_err() {
            self.has_errored = true;
        }
        advanced
    }
}

impl<I: StorageIterator> StorageIterator for FusedIterator<I> {
    open spec fn wf(&self) -> bool {
        self.has_errored() || self.inner().wf()
    }

    open spec fn unfailing(&self) -> bool {
        !self.has_errored() && self.inner().unfailing()
    }

    open spec fn active(&self) -> nat {
        self.inner().active()
    }

    open spec fn remaining(&self) -> Seq<(Seq<u8>, Seq<u8>)> {
        if self.has_errored() {
            Seq::empty()
        } else {
            self.inner().remaining()
        }
    }

    fn is_valid(&self) -> (valid: bool)
        ensures
            valid == fused_is_valid(self.has_errored(), self.inner().remaining()),
    {
        !self.has_errored && self.iter.is_valid()
    }

    fn key(&self) -> (key: &[u8]) {
        self.iter.key()
    }

    fn value(&self) -> (value: &[u8]) {
        self.iter.value()
    }

    fn next(&mut self) -> (outcome: Result<(), StorageError>)
        ensures
            final(self).wf(),
            !fused_is_valid(old(self).has_errored(), old(self).inner().remaining()) ==> {
                &&& outcome == fused_outcome(
                    old(self).has_errored(),
                    old(self).inner().remaining(),
                    Ok(()),
                )
                &&& final(self).inner() == old(self).inner()
            },
            final(self).has_errored() == fused_errored_after(
                old(self).has_errored(),
                old(self).inner().remaining(),
                outcome,
            ),
            outcome is Ok && old(self).remaining().len() > 0 ==> final(self).inner().remaining()
                == old(self).inner().remaining().drop_first(),
    {
        if self.has_errored {
            return Err(StorageError::InvalidOperation);
        }
        if self.iter.is_valid() {
            let advanced = self.iter.next();
            return self.record(advanced);
        }
        Ok(())
    }

    fn num_active_iterators(&self) -> (count: usize) {
        self.iter.num_active_iterators()
    }
}

} // verus!
