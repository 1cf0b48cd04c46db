//! Merges two sorted sources of different kinds into one.

use crate::iterators::{
    all_after, ascending, has_key, lemma_all_after_earlier, lemma_all_after_from_members,
    lemma_all_after_members, lemma_ascending_cons, lemma_ascending_rest, lemma_contains_cons,
    lemma_contains_first_or_rest, StorageError, StorageIterator,
};
use crate::key::{
    key_lt, lemma_key_order_total, lemma_key_order_transitive, precedes, same_key,
};
use vstd::prelude::*;

verus! {

/// What two sources show together: at each step the entry with the smaller
/// key; where both stand at the same key, the entry of `b` is passed over
/// and the entry of `a` is shown.
pub open spec fn merge_two(a: Seq<(Seq<u8>, Seq<u8>)>, b: Seq<(Seq<u8>, Seq<u8>)>) -> Seq<
    (Seq<u8>, Seq<u8>),
>
    decreases a.len() + b.len(),
{
    if a.len() == 0 {
        b
    } else if b.len() == 0 {
        a
    } else if a[0].0 == b[0].0 {
        merge_two(a, b.drop_first())
    } else if key_lt(a[0].0, b[0].0) {
        seq![a[0]] + merge_two(a.drop_first(), b)
    } else {
        seq![b[0]] + merge_two(a, b.drop_first())
    }
}

/// Whether the entry shown next is the one of `a`: `a` has one, and `b` has
/// none or one with a later key.
pub open spec fn prefers_first(a: Seq<(Seq<u8>, Seq<u8>)>, b: Seq<(Seq<u8>, Seq<u8>)>) -> bool {
    a.len() > 0 && (b.len() == 0 || key_lt(a[0].0, b[0].0))
}

/// Whether the two sources do not stand at the same key.
pub open spec fn apart(a: Seq<(Seq<u8>, Seq<u8>)>, b: Seq<(Seq<u8>, Seq<u8>)>) -> bool {
    a.len() > 0 && b.len() > 0 ==> a[0].0 != b[0].0
}

/// Where the sources do not stand at the same key, the merged entries start
/// with the entry of the preferred source and go on with the merge of what
/// is left.
pub proof fn lemma_merge_two_step(a: Seq<(Seq<u8>, Seq<u8>)>, b: Seq<(Seq<u8>, Seq<u8>)>)
    requires
        apart(a, b),
    ensures
        merge_two(a, b).len() > 0 <==> a.len() > 0 || b.len() > 0,
        prefers_first(a, b) ==> merge_two(a, b)[0] == a[0] && merge_two(a, b).drop_first()
            == merge_two(a.drop_first(), b),
        !prefers_first(a, b) && b.len() > 0 ==> merge_two(a, b)[0] == b[0] && merge_two(
            a,
            b,
        ).drop_first() == merge_two(a, b.drop_first()),
{
    if a.len() > 0 && b.len() == 0 {
        assert(a.drop_first() =~= merge_two(a.drop_first(), b));
    }
    if prefers_first(a, b) {
        assert(merge_two(a, b).drop_first() =~= merge_two(a.drop_first(), b));
    } else if b.len() > 0 {
        if a.len() == 0 {
            assert(b.drop_first() =~= merge_two(a, b.drop_first()));
        }
        assert(merge_two(a, b).drop_first() =~= merge_two(a, b.drop_first()));
    }
}

/// The merge of two sources with ascending keys is exact: it is ascending,
/// and it shows an entry if and only if the first source has it, or the
/// second has it and the first does not hold its key.
pub proof fn lemma_merge_two_exact(a: Seq<(Seq<u8>, Seq<u8>)>, b: Seq<(Seq<u8>, Seq<u8>)>)
    requires
        ascending(a),
        ascending(b),
    ensures
        ascending(merge_two(a, b)),
        forall|entry: (Seq<u8>, Seq<u8>)|
            #[trigger] merge_two(a, b).contains(entry) <==> a.contains(entry) || (b.contains(
                entry,
            ) && !has_key(a, entry.0)),
    decreases a.len() + b.len(),
{
    let merged = merge_two(a, b);
    if a.len() == 0 {
        assert forall|entry: (Seq<u8>, Seq<u8>)| !a.contains(entry) && !has_key(a, entry.0) by {}
    } else if b.len() == 0 {
        assert forall|entry: (Seq<u8>, Seq<u8>)| !b.contains(entry) by {}
    } else if a[0].0 == b[0].0 {
        let rest = b.drop_first();
        lemma_ascending_rest(b);
        lemma_merge_two_exact(a, rest);
        assert forall|entry: (Seq<u8>, Seq<u8>)|
            #[trigger] merged.contains(entry) <==> a.contains(entry) || (b.contains(entry)
                && !has_key(a, entry.0)) by {
            lemma_contains_first_or_rest(b, entry);
            if entry == b[0] {
                assert(a[0].0 == entry.0);
            }
        }
    } else if key_lt(a[0].0, b[0].0) {
        let rest = a.drop_first();
        let later = merge_two(rest, b);
        lemma_ascending_rest(a);
        lemma_ascending_rest(b);
        lemma_merge_two_exact(rest, b);
        // Everything left comes after the entry shown.
        lemma_all_after_earlier(b.drop_first(), b[0].0, a[0].0);
        assert(all_after(b, a[0].0)) by {
            assert forall|i: int| 0 <= i < b.len() implies key_lt(a[0].0, (#[trigger] b[i]).0) by {
                if i > 0 {
                    assert(b.drop_first()[i - 1] == b[i]);
                }
            }
        }
        lemma_all_after_members(rest, a[0].0);
        lemma_all_after_members(b, a[0].0);
        lemma_all_after_from_members(later, a[0].0);
        lemma_ascending_cons(a[0], later);
        assert forall|entry: (Seq<u8>, Seq<u8>)|
            #[trigger] merged.contains(entry) <==> a.contains(entry) || (b.contains(entry)
                && !has_key(a, entry.0)) by {
            lemma_contains_cons(a[0], later, entry);
            lemma_contains_first_or_rest(a, entry);
            if b.contains(entry) {
                lemma_key_order_total(a[0].0, entry.0);
            }
        }
    } else {
        let rest = b.drop_first();
        let later = merge_two(a, rest);
        lemma_key_order_total(a[0].0, b[0].0);
        lemma_ascending_rest(a);
        lemma_ascending_rest(b);
        lemma_merge_two_exact(a, rest);
        lemma_all_after_earlier(a.drop_first(), a[0].0, b[0].0);
        assert(all_after(a, b[0].0)) by {
            assert forall|i: int| 0 <= i < a.len() implies key_lt(b[0].0, (#[trigger] a[i]).0) by {
                if i > 0 {
                    assert(a.drop_first()[i - 1] == a[i]);
                }
            }
        }
        lemma_all_after_members(rest, b[0].0);
        lemma_all_after_members(a, b[0].0);
        lemma_all_after_from_members(later, b[0].0);
        lemma_ascending_cons(b[0], later);
        assert forall|entry: (Seq<u8>, Seq<u8>)|
            #[trigger] merged.contains(entry) <==> a.contains(entry) || (b.contains(entry)
                && !has_key(a, entry.0)) by {
            lemma_contains_cons(b[0], later, entry);
            lemma_contains_first_or_rest(b, entry);
        }
    }
}

/// Of two sources that both start with a key, the first one is shown: the
/// merge of `[(k1, v1), (k2, v2)]` and `[(k1, w1), (k3, w3)]`, with
/// `k1 < k2 < k3`, is `[(k1, v1), (k2, v2), (k3, w3)]`.
pub proof fn lemma_merge_two_prefers_first(
    k1: Seq<u8>,
    k2: Seq<u8>,
    k3: Seq<u8>,
    v1: Seq<u8>,
    v2: Seq<u8>,
    w1: Seq<u8>,
    w3: Seq<u8>,
)
    requires
        key_lt(k1, k2),
        key_lt(k2, k3),
    ensures
        merge_two(seq![(k1, v1), (k2, v2)], seq![(k1, w1), (k3, w3)]) == seq![
            (k1, v1),
            (k2, v2),
            (k3, w3),
        ],
{
    let none = Seq::<(Seq<u8>, Seq<u8>)>::empty();
    let a = seq![(k1, v1), (k2, v2)];
    let b = seq![(k1, w1), (k3, w3)];
    lemma_key_order_total(k1, k2);
    lemma_key_order_total(k1, k3);
    lemma_key_order_total(k2, k3);
    lemma_key_order_transitive(k1, k2, k3);
    assert(b.drop_first() =~= seq![(k3, w3)]);
    assert(a.drop_first() =~= seq![(k2, v2)]);
    assert(seq![(k2, v2)].drop_first() =~= none);
    assert(merge_two(none, seq![(k3, w3)]) =~= seq![(k3, w3)]);
    assert(merge_two(seq![(k2, v2)], seq![(k3, w3)]) =~= seq![(k2, v2), (k3, w3)]);
    assert(merge_two(a, seq![(k3, w3)]) =~= seq![(k1, v1), (k2, v2), (k3, w3)]);
    assert(merge_two(a, b) =~= seq![(k1, v1), (k2, v2), (k3, w3)]);
}

/// Merges two sources; where both hold a key, the first source is shown.
pub struct TwoMergeIterator<A: StorageIterator, B: StorageIterator> {
    a: A,
    b: B,
    choose_a: bool,
}

impl<A: StorageIterator, B: StorageIterator> TwoMergeIterator<A, B> {
    /// The source that is shown where both hold a key.
    pub closed spec fn first(&self) -> A {
        self.a
    }

    /// The other source.
    pub closed spec fn second(&self) -> B {
        self.b
    }

    /// Whether the current entry is the one of the first source.
    pub closed spec fn on_first(&self) -> bool {
        self.choose_a
    }

    /// The merge of `a` and `b`. Fails only if `b` fails to advance past a
    /// key at which both stand.
    pub fn create(a: A, b: B) -> (made: Result<Self, StorageError>)
        requires
            a.wf(),
            b.wf(),
        ensures
            match made {
                Ok(merged) => {
                    &&& merged.wf()
                    &&& merged.remaining() == merge_two(a.remaining(), b.remaining())
                    &&& a.unfailing() && b.unfailing() ==> merged.unfailing()
                },
                Err(_) => !apart(a.remaining(), b.remaining()) && !b.unfailing(),
            },
    {
        let mut merged = TwoMergeIterator { a, b, choose_a: false };
        match merged.skip_b() {
            Ok(()) => {},
            Err(error) => {
                return Err(error);
            },
        }
        merged.choose_a = Self::first_comes_next(&merged.a, &merged.b);
        Ok(merged)
    }

    /// Whether the entry of `a` comes next.
    fn first_comes_next(a: &A, b: &B) -> (first: bool)
        requires
            a.wf(),
            b.wf(),
        ensures
            first == prefers_first(a.remaining(), b.remaining()),
    {
        if !a.is_valid() {
            false
        } else if !b.is_valid() {
            true
        } else {
            precedes(a.key(), b.key())
        }
    }

    /// Advances the second source past the key at which the first one
    /// stands.
    fn skip_b(&mut self) -> (outcome: Result<(), StorageError>)
        requires
            old(self).a.wf(),
            old(self).b.wf(),
        ensures
            final(self).a == old(self).a,
            final(self).choose_a == old(self).choose_a,
            outcome is Ok ==> {
                &&& final(self).b.wf()
                &&& apart(final(self).a.remaining(), final(self).b.remaining())
                &&& merge_two(final(self).a.remaining(), final(self).b.remaining()) == merge_two(
                    old(self).a.remaining(),
                    old(self).b.remaining(),
                )
            },
            outcome is Err ==> !apart(old(self).a.remaining(), old(self).b.remaining()),
            old(self).b.unfailing() ==> outcome is Ok && final(self).b.unfailing(),
    {
        while self.a.is_valid() && self.b.is_valid() && same_key(self.a.key(), self.b.key())
            invariant
                self.a == old(self).a,
                self.choose_a == old(self).choose_a,
                self.a.wf(),
                self.b.wf(),
                merge_two(self.a.remaining(), self.b.remaining()) == merge_two(
                    old(self).a.remaining(),
                    old(self).b.remaining(),
                ),
                apart(old(self).a.remaining(), old(self).b.remaining()) ==> self.b == old(self).b,
                old(self).b.unfailing() ==> self.b.unfailing(),
            decreases self.b.remaining().len(),
        {
            match self.b.next() {
                Ok(()) => {},
                Err(error) => {
                    return Err(error);
                },
            }
        }
        Ok(())
    }
}

impl<A: StorageIterator, B: StorageIterator> StorageIterator for TwoMergeIterator<A, B> {
    open spec fn wf(&self) -> bool {
        &&& self.first().wf()
        &&& self.second().wf()
        &&& apart(self.first().remaining(), self.second().remaining())
        &&& self.on_first() == prefers_first(self.first().remaining(), self.second().remaining())
    }

    open spec fn remaining(&self) -> Seq<(Seq<u8>, Seq<u8>)> {
        merge_two(self.first().remaining(), self.second().remaining())
    }

    open spec fn unfailing(&self) -> bool {
        self.first().unfailing() && self.second().unfailing()
    }

    open spec fn active(&self) -> nat {
        if self.first().active() + self.second().active() > usize::MAX {
            usize::MAX as nat
        } else {
            self.first().active() + self.second().active()
        }
    }

    fn is_valid(&self) -> (valid: bool) {
        proof {
            lemma_merge_two_step(self.a.remaining(), self.b.remaining());
        }
        if self.choose_a {
            self.a.is_valid()
        } else {
            self.b.is_valid()
        }
    }

    fn key(&self) -> (key: &[u8]) {
        proof {
            lemma_merge_two_step(self.a.remaining(), self.b.remaining());
        }
        if self.choose_a {
            self.a.key()
        } else {
            self.b.key()
        }
    }

    fn value(&self) -> (value: &[u8]) {
        proof {
            lemma_merge_two_step(self.a.remaining(), self.b.remaining());
        }
        if self.choose_a {
            self.a.value()
        } else {
            self.b.value()
        }
    }

    /// Moves past the current entry and past the same key in the second
    /// source. At the end nothing changes.
    fn next(&mut self) -> (outcome: Result<(), StorageError>)
        ensures
            old(self).remaining().len() == 0 ==> outcome is Ok && *final(self) == *old(self),
    {
        proof {
            lemma_merge_two_step(self.a.remaining(), self.b.remaining());
        }
        if self.choose_a {
            match self.a.next() {
                Ok(()) => {},
                Err(error) => {
                    return Err(error);
                },
            }
        } else if self.b.is_valid() {
            match self.b.next() {
                Ok(()) => {},
                Err(error) => {
                    return Err(error);
                },
            }
        } else {
            return Ok(());
        }
        match self.skip_b() {
            Ok(()) => {},
            Err(error) => {
                return Err(error);
            },
        }
        self.choose_a = Self::first_comes_next(&self.a, &self.b);
        Ok(())
    }

    fn num_active_iterators(&self) -> (count: usize) {
        self.a.num_active_iterators().saturating_add(self.b.num_active_iterators())
    }
}

} // verus!
