//! Merges any number of sorted sources of one kind into one.

use crate::iterators::{
    all_after, ascending, has_key, lemma_all_after_earlier, lemma_all_after_from_members,
    lemma_all_after_members, lemma_ascending_cons, lemma_ascending_rest, lemma_contains_cons,
    lemma_contains_first_or_rest, StorageError, StorageIterator,
};
use crate::key::{
    key_lt, lemma_key_order_total, lemma_key_order_transitive, precedes, same_key,
};
use vstd::prelude::*;

verus! {

/// Among the first `upto` of `streams`, the index of the one whose first
/// entry is shown next: the smallest key wins, and of equal keys the lowest
/// index. It is -1 if none of them has an entry.
pub open spec fn leader(streams: Seq<Seq<(Seq<u8>, Seq<u8>)>>, upto: int) -> int
    decreases upto,
{
    if upto <= 0 {
        -1
    } else {
        let before = leader(streams, upto - 1);
        let last = upto - 1;
        if streams[last].len() == 0 {
            before
        } else if before < 0 || key_lt(streams[last][0].0, streams[before][0].0) {
            last
        } else {
            before
        }
    }
}

/// The stream after it has moved past `key`, if it stands at it.
pub open spec fn pass_one(stream: Seq<(Seq<u8>, Seq<u8>)>, key: Seq<u8>) -> Seq<
    (Seq<u8>, Seq<u8>),
> {
    if stream.len() > 0 && stream[0].0 == key {
        stream.drop_first()
    } else {
        stream
    }
}

/// The streams after every one that stands at `key` has moved past it.
pub open spec fn pass_key(streams: Seq<Seq<(Seq<u8>, Seq<u8>)>>, key: Seq<u8>) -> Seq<
    Seq<(Seq<u8>, Seq<u8>)>,
> {
    Seq::new(streams.len(), |i: int| pass_one(streams[i], key))
}

/// Whether every stream has ascending keys.
pub open spec fn all_ascending(streams: Seq<Seq<(Seq<u8>, Seq<u8>)>>) -> bool {
    forall|i: int| 0 <= i < streams.len() ==> ascending(#[trigger] streams[i])
}

/// Whether the stream at `at` has the entry and no earlier stream holds its
/// key.
pub open spec fn shown_from(
    streams: Seq<Seq<(Seq<u8>, Seq<u8>)>>,
    entry: (Seq<u8>, Seq<u8>),
    at: int,
) -> bool {
    &&& 0 <= at < streams.len()
    &&& streams[at].contains(entry)
    &&& forall|j: int| 0 <= j < at ==> !has_key(#[trigger] streams[j], entry.0)
}

/// The number of entries in all the streams.
pub open spec fn total_len(streams: Seq<Seq<(Seq<u8>, Seq<u8>)>>) -> nat
    decreases streams.len(),
{
    if streams.len() == 0 {
        0
    } else {
        total_len(streams.drop_last()) + streams.last().len()
    }
}

/// The number of streams that have an entry.
pub open spec fn live_count(streams: Seq<Seq<(Seq<u8>, Seq<u8>)>>) -> nat
    decreases streams.len(),
{
    if streams.len() == 0 {
        0
    } else {
        live_count(streams.drop_last()) + if streams.last().len() > 0 {
            1nat
        } else {
            0nat
        }
    }
}

/// What the streams show together: at each step the first entry of the
/// leading stream, after which every stream that stands at its key moves
/// past it.
pub open spec fn merge_all(streams: Seq<Seq<(Seq<u8>, Seq<u8>)>>) -> Seq<(Seq<u8>, Seq<u8>)>
    decreases total_len(streams),
    via merge_all_decreases
{
    let first = leader(streams, streams.len() as int);
    if first < 0 {
        Seq::empty()
    } else {
        seq![streams[first][0]] + merge_all(pass_key(streams, streams[first][0].0))
    }
}

#[via_fn]
proof fn merge_all_decreases(streams: Seq<Seq<(Seq<u8>, Seq<u8>)>>) {
    let first = leader(streams, streams.len() as int);
    if first >= 0 {
        lemma_leader(streams, streams.len() as int);
        lemma_pass_key_shortens(streams, streams[first][0].0, first);
    }
}

/// The leader, if there is one, is one of the streams looked at and has an
/// entry; no stream looked at has a smaller key, and none before the leader
/// has the same key. There is none only if no stream looked at has an entry.
pub proof fn lemma_leader(streams: Seq<Seq<(Seq<u8>, Seq<u8>)>>, upto: int)
    requires
        0 <= upto <= streams.len(),
    ensures
        -1 <= leader(streams, upto) < upto,
        leader(streams, upto) >= 0 ==> streams[leader(streams, upto)].len() > 0,
        leader(streams, upto) < 0 ==> forall|i: int| 0 <= i < upto ==> streams[i].len() == 0,
        leader(streams, upto) >= 0 ==> forall|i: int|
            0 <= i < upto && streams[i].len() > 0 ==> !key_lt(
                (#[trigger] streams[i])[0].0,
                streams[leader(streams, upto)][0].0,
            ),
        leader(streams, upto) >= 0 ==> forall|i: int|
            0 <= i < leader(streams, upto) && streams[i].len() > 0 ==> key_lt(
                streams[leader(streams, upto)][0].0,
                (#[trigger] streams[i])[0].0,
            ),
    decreases upto,
{
    if upto > 0 {
        lemma_leader(streams, upto - 1);
        let before = leader(streams, upto - 1);
        let last = upto - 1;
        let now = leader(streams, upto);
        if streams[last].len() > 0 && before >= 0 {
            let new_key = streams[last][0].0;
            let old_key = streams[before][0].0;
            lemma_key_order_total(new_key, old_key);
            if key_lt(new_key, old_key) {
                assert forall|i: int| 0 <= i < upto && streams[i].len() > 0 implies !key_lt(
                    (#[trigger] streams[i])[0].0,
                    new_key,
                ) by {
                    if i < last {
                        if key_lt(streams[i][0].0, new_key) {
                            lemma_key_order_transitive(streams[i][0].0, new_key, old_key);
                        }
                    } else {
                        lemma_key_order_total(new_key, new_key);
                    }
                }
                assert forall|i: int| 0 <= i < now && streams[i].len() > 0 implies key_lt(
                    new_key,
                    (#[trigger] streams[i])[0].0,
                ) by {
                    let other = streams[i][0].0;
                    lemma_key_order_total(other, old_key);
                    if other != old_key {
                        lemma_key_order_transitive(new_key, old_key, other);
                    }
                }
            }
        } else if streams[last].len() > 0 {
            lemma_key_order_total(streams[last][0].0, streams[last][0].0);
        }
    }
}

/// Moving past a key makes no stream longer, and shortens the whole if some
/// stream stands at the key.
pub proof fn lemma_pass_key_shortens(
    streams: Seq<Seq<(Seq<u8>, Seq<u8>)>>,
    key: Seq<u8>,
    at: int,
)
    requires
        0 <= at < streams.len(),
        streams[at].len() > 0,
        streams[at][0].0 == key,
    ensures
        total_len(pass_key(streams, key)) < total_len(streams),
    decreases streams.len(),
{
    let front = streams.drop_last();
    assert(pass_key(streams, key).drop_last() =~= pass_key(front, key));
    if at < streams.len() - 1 {
        lemma_pass_key_shortens(front, key, at);
    } else {
        lemma_pass_key_not_longer(front, key);
    }
}

/// Moving past a key makes the whole no longer.
pub proof fn lemma_pass_key_not_longer(streams: Seq<Seq<(Seq<u8>, Seq<u8>)>>, key: Seq<u8>)
    ensures
        total_len(pass_key(streams, key)) <= total_len(streams),
    decreases streams.len(),
{
    if streams.len() > 0 {
        let front = streams.drop_last();
        assert(pass_key(streams, key).drop_last() =~= pass_key(front, key));
        lemma_pass_key_not_longer(front, key);
    }
}

/// A stream with ascending keys that does not start before `key`, once it
/// has moved past `key`: it is ascending, all of it comes after `key`, and
/// it holds what it held but for an entry with that key.
pub proof fn lemma_pass_one(stream: Seq<(Seq<u8>, Seq<u8>)>, key: Seq<u8>)
    requires
        ascending(stream),
        stream.len() > 0 ==> !key_lt(stream[0].0, key),
    ensures
        ascending(pass_one(stream, key)),
        all_after(pass_one(stream, key), key),
        forall|entry: (Seq<u8>, Seq<u8>)|
            #[trigger] pass_one(stream, key).contains(entry) <==> stream.contains(entry)
                && entry.0 != key,
        forall|other: Seq<u8>|
            other != key ==> (#[trigger] has_key(pass_one(stream, key), other) <==> has_key(
                stream,
                other,
            )),
        forall|entry: (Seq<u8>, Seq<u8>)|
            stream.contains(entry) && entry.0 == key ==> entry == stream[0],
{
    let passed = pass_one(stream, key);
    if stream.len() > 0 {
        let rest = stream.drop_first();
        lemma_ascending_rest(stream);
        lemma_key_order_total(stream[0].0, key);
        if stream[0].0 == key {
            lemma_all_after_members(rest, key);
        } else {
            lemma_all_after_earlier(rest, stream[0].0, key);
            assert forall|i: int| 0 <= i < stream.len() implies key_lt(
                key,
                (#[trigger] stream[i]).0,
            ) by {
                if i > 0 {
                    assert(rest[i - 1] == stream[i]);
                }
            }
            lemma_all_after_members(stream, key);
        }
        lemma_all_after_members(passed, key);
        assert forall|entry: (Seq<u8>, Seq<u8>)|
            #[trigger] passed.contains(entry) <==> stream.contains(entry) && entry.0
                != key by {
            lemma_contains_first_or_rest(stream, entry);
            lemma_key_order_total(key, entry.0);
        }
        assert forall|other: Seq<u8>| other != key implies (#[trigger] has_key(passed, other)
            <==> has_key(stream, other)) by {
            lemma_contains_first_or_rest(stream, (other, Seq::<u8>::empty()));
        }
        assert forall|entry: (Seq<u8>, Seq<u8>)|
            stream.contains(entry) && entry.0 == key implies entry == stream[0] by {
            lemma_contains_first_or_rest(stream, entry);
            lemma_key_order_total(key, entry.0);
        }
    } else {
        assert forall|entry: (Seq<u8>, Seq<u8>)| !stream.contains(entry) by {}
    }
}

/// The merge of sources with ascending keys is exact: it is ascending, and
/// it shows an entry if and only if some source has it and no earlier
/// source holds its key.
pub proof fn lemma_merge_all_exact(streams: Seq<Seq<(Seq<u8>, Seq<u8>)>>)
    requires
        all_ascending(streams),
    ensures
        ascending(merge_all(streams)),
        forall|entry: (Seq<u8>, Seq<u8>)|
            #[trigger] merge_all(streams).contains(entry) <==> exists|at: int|
                shown_from(streams, entry, at),
    decreases total_len(streams),
{
    let count = streams.len() as int;
    let first = leader(streams, count);
    let merged = merge_all(streams);
    lemma_leader(streams, count);
    if first < 0 {
        assert forall|entry: (Seq<u8>, Seq<u8>)|
            #[trigger] merged.contains(entry) <==> exists|at: int|
                shown_from(streams, entry, at) by {
            if exists|at: int| shown_from(streams, entry, at) {
                let at = choose|at: int| shown_from(streams, entry, at);
                assert(streams[at].len() == 0);
            }
        }
    } else {
        let shown = streams[first][0];
        let key = shown.0;
        let passed = pass_key(streams, key);
        let later = merge_all(passed);
        lemma_pass_key_shortens(streams, key, first);
        assert forall|i: int| 0 <= i < count implies ascending(#[trigger] passed[i]) && all_after(
            passed[i],
            key,
        ) by {
            assert(ascending(streams[i]));
            lemma_pass_one(streams[i], key);
        }
        lemma_merge_all_exact(passed);
        // What is shown later comes after the entry shown now.
        assert forall|entry: (Seq<u8>, Seq<u8>)| #[trigger] later.contains(entry) implies key_lt(
            key,
            entry.0,
        ) by {
            let at = choose|at: int| shown_from(passed, entry, at);
            lemma_all_after_members(passed[at], key);
        }
        lemma_all_after_from_members(later, key);
        lemma_ascending_cons(shown, later);
        assert forall|entry: (Seq<u8>, Seq<u8>)|
            #[trigger] merged.contains(entry) <==> exists|at: int|
                shown_from(streams, entry, at) by {
            lemma_contains_cons(shown, later, entry);
            if merged.contains(entry) {
                if entry == shown {
                    lemma_leader_is_first_with_key(streams);
                    assert(streams[first].contains(shown));
                    assert(shown_from(streams, entry, first));
                } else {
                    let at = choose|at: int| shown_from(passed, entry, at);
                    lemma_all_after_members(passed[at], key);
                    lemma_key_order_total(key, entry.0);
                    assert(ascending(streams[at]));
                    lemma_pass_one(streams[at], key);
                    assert forall|j: int| 0 <= j < at implies !has_key(
                        #[trigger] streams[j],
                        entry.0,
                    ) by {
                        assert(ascending(streams[j]));
                        lemma_pass_one(streams[j], key);
                        assert(!has_key(passed[j], entry.0));
                    }
                    assert(shown_from(streams, entry, at));
                }
            }
            if exists|at: int| shown_from(streams, entry, at) {
                let at = choose|at: int| shown_from(streams, entry, at);
                assert(ascending(streams[at]));
                lemma_pass_one(streams[at], key);
                if entry.0 == key {
                    assert(entry == streams[at][0]);
                    lemma_leader_is_first_with_key(streams);
                    if at < first {
                        lemma_key_order_total(key, key);
                    } else if first < at {
                        assert(has_key(streams[first], key)) by {
                            assert(streams[first][0].0 == key);
                        }
                    }
                    assert(entry == shown);
                } else {
                    assert(passed[at].contains(entry));
                    assert forall|j: int| 0 <= j < at implies !has_key(
                        #[trigger] passed[j],
                        entry.0,
                    ) by {
                        assert(ascending(streams[j]));
                        lemma_pass_one(streams[j], key);
                        assert(!has_key(streams[j], entry.0));
                    }
                    assert(shown_from(passed, entry, at));
                }
            }
        }
    }
}

/// Of streams with ascending keys, none before the leading one holds the
/// key at which the leading one stands.
pub proof fn lemma_leader_is_first_with_key(streams: Seq<Seq<(Seq<u8>, Seq<u8>)>>)
    requires
        all_ascending(streams),
        leader(streams, streams.len() as int) >= 0,
    ensures
        ({
            let first = leader(streams, streams.len() as int);
            forall|j: int|
                0 <= j < first ==> !has_key(#[trigger] streams[j], streams[first][0].0)
        }),
{
    let first = leader(streams, streams.len() as int);
    let key = streams[first][0].0;
    lemma_leader(streams, streams.len() as int);
    assert forall|j: int| 0 <= j < first implies !has_key(#[trigger] streams[j], key) by {
        assert(ascending(streams[j]));
        if streams[j].len() > 0 {
            assert(key_lt(key, streams[j][0].0));
            lemma_key_order_total(key, streams[j][0].0);
            lemma_pass_one(streams[j], key);
            if has_key(streams[j], key) {
                let at = choose|at: int|
                    0 <= at < streams[j].len() && (#[trigger] streams[j][at]).0 == key;
                assert(streams[j].contains(streams[j][at]));
                assert(pass_one(streams[j], key).contains(streams[j][at]));
            }
        } else {
            assert(!has_key(streams[j], key));
        }
    }
}

/// Of two sources that both start with a key, the earlier one is shown: the
/// merge of `[(k1, v1), (k2, v2)]` before `[(k1, w1), (k3, w3)]`, with
/// `k1 < k2 < k3`, is `[(k1, v1), (k2, v2), (k3, w3)]`.
pub proof fn lemma_merge_all_prefers_earlier(
    k1: Seq<u8>,
    k2: Seq<u8>,
    k3: Seq<u8>,
    v1: Seq<u8>,
    v2: Seq<u8>,
    w1: Seq<u8>,
    w3: Seq<u8>,
)
    requires
        key_lt(k1, k2),
        key_lt(k2, k3),
    ensures
        merge_all(seq![seq![(k1, v1), (k2, v2)], seq![(k1, w1), (k3, w3)]]) == seq![
            (k1, v1),
            (k2, v2),
            (k3, w3),
        ],
{
    let none = Seq::<(Seq<u8>, Seq<u8>)>::empty();
    let start = seq![seq![(k1, v1), (k2, v2)], seq![(k1, w1), (k3, w3)]];
    let second = seq![seq![(k2, v2)], seq![(k3, w3)]];
    let third = seq![none, seq![(k3, w3)]];
    let last = seq![none, none];
    lemma_key_order_total(k1, k1);
    lemma_key_order_total(k2, k3);
    lemma_key_order_total(k3, k3);
    reveal_with_fuel(leader, 3);
    assert(leader(start, 2) == 0);
    assert(leader(second, 2) == 0);
    assert(leader(third, 2) == 1);
    assert(leader(last, 2) == -1);
    assert(pass_key(start, k1) =~= second) by {
        assert(seq![(k1, v1), (k2, v2)].drop_first() =~= seq![(k2, v2)]);
        assert(seq![(k1, w1), (k3, w3)].drop_first() =~= seq![(k3, w3)]);
    }
    assert(pass_key(second, k2) =~= third) by {
        assert(seq![(k2, v2)].drop_first() =~= none);
    }
    assert(pass_key(third, k3) =~= last) by {
        assert(seq![(k3, w3)].drop_first() =~= none);
    }
    assert(merge_all(last) =~= none);
    assert(merge_all(third) =~= seq![(k3, w3)]);
    assert(merge_all(second) =~= seq![(k2, v2), (k3, w3)]);
    assert(merge_all(start) =~= seq![(k1, v1), (k2, v2), (k3, w3)]);
}

/// The streams of the given sources.
pub open spec fn streams_of<I: StorageIterator>(sources: Seq<I>) -> Seq<Seq<(Seq<u8>, Seq<u8>)>> {
    Seq::new(sources.len(), |i: int| sources[i].remaining())
}

/// Merges sources of one kind; where several hold a key, the one given
/// first is shown.
pub struct MergeIterator<I: StorageIterator> {
    iters: Vec<I>,
    /// The index of the source whose entry is shown; the number of sources
    /// if none has an entry.
    current: usize,
    /// The number of sources that had an entry when last counted.
    live: usize,
}

impl<I: StorageIterator> MergeIterator<I> {
    /// The sources, in the order in which they were given.
    pub closed spec fn sources(&self) -> Seq<I> {
        self.iters@
    }

    /// The index of the source whose entry is shown; the number of sources
    /// if none has an entry.
    pub closed spec fn current(&self) -> int {
        self.current as int
    }

    /// The streams of the sources.
    pub open spec fn streams(&self) -> Seq<Seq<(Seq<u8>, Seq<u8>)>> {
        streams_of(self.sources())
    }

    /// The merge of `iters`, of which an earlier one is shown before a later
    /// one with the same key.
    pub fn create(iters: Vec<I>) -> (merged: Self)
        requires
            forall|i: int| 0 <= i < iters@.len() ==> (#[trigger] iters@[i]).wf(),
        ensures
            merged.wf(),
            merged.sources() == iters@,
            merged.remaining() == merge_all(streams_of(iters@)),
    {
        let (current, live) = Self::find_leader(&iters);
        MergeIterator { iters, current, live }
    }

    /// The index of the leading source, or the number of sources if none has
    /// an entry; and the number of sources that have one.
    fn find_leader(iters: &Vec<I>) -> (found: (usize, usize))
        requires
            forall|i: int| 0 <= i < iters@.len() ==> (#[trigger] iters@[i]).wf(),
        ensures
            found.0 == if leader(streams_of(iters@), iters@.len() as int) < 0 {
                iters@.len() as int
            } else {
                leader(streams_of(iters@), iters@.len() as int)
            },
            found.1 == live_count(streams_of(iters@)),
    {
        let ghost streams = streams_of(iters@);
        let count: usize = iters.len();
        let mut best: usize = count;
        let mut live: usize = 0;
        let mut i: usize = 0;
        while i < count
            invariant
                i <= count,
                count == iters@.len(),
                streams == streams_of(iters@),
                forall|j: int| 0 <= j < iters@.len() ==> (#[trigger] iters@[j]).wf(),
                best == count <==> leader(streams, i as int) < 0,
                best < count ==> best == leader(streams, i as int),
                best <= count,
                live == live_count(streams.take(i as int)),
                live <= i,
            decreases count - i,
        {
            proof {
                lemma_leader(streams, i as int);
                assert(streams.take(i + 1).drop_last() =~= streams.take(i as int));
                assert(streams[i as int] == iters@[i as int].remaining());
            }
            if iters[i].is_valid() {
                live += 1;
                if best == count || precedes(iters[i].key(), iters[best].key()) {
                    best = i;
                }
            }
            i += 1;
        }
        assert(streams.take(count as int) =~= streams);
        (best, live)
    }
}

impl<I: StorageIterator> StorageIterator for MergeIterator<I> {
    open spec fn wf(&self) -> bool {
        &&& forall|i: int| 0 <= i < self.sources().len() ==> (#[trigger] self.sources()[i]).wf()
        &&& self.current() == if leader(self.streams(), self.sources().len() as int) < 0 {
            self.sources().len() as int
        } else {
            leader(self.streams(), self.sources().len() as int)
        }
        &&& self.active() == live_count(self.streams())
    }

    open spec fn remaining(&self) -> Seq<(Seq<u8>, Seq<u8>)> {
        merge_all(self.streams())
    }

    closed spec fn active(&self) -> nat {
        self.live as nat
    }

    open spec fn unfailing(&self) -> bool {
        forall|i: int| 0 <= i < self.sources().len() ==> (#[trigger] self.sources()[i]).unfailing()
    }

    fn is_valid(&self) -> (valid: bool) {
        proof {
            lemma_leader(self.streams(), self.iters@.len() as int);
        }
        self.current < self.iters.len()
    }

    fn key(&self) -> (key: &[u8]) {
        proof {
            lemma_leader(self.streams(), self.iters@.len() as int);
        }
        self.iters[self.current].key()
    }

    fn value(&self) -> (value: &[u8]) {
        proof {
            lemma_leader(self.streams(), self.iters@.len() as int);
        }
        self.iters[self.current].value()
    }

    /// Moves every source that stands at the current key past it. At the end
    /// nothing changes.
    fn next(&mut self) -> (outcome: Result<(), StorageError>)
        ensures
            old(self).remaining().len() == 0 ==> outcome is Ok && *final(self) == *old(self),
            outcome is Ok ==> final(self).sources().len() == old(self).sources().len(),
    {
        let count: usize = self.iters.len();
        proof {
            lemma_leader(self.streams(), count as int);
        }
        if self.current >= count {
            return Ok(());
        }
        let ghost before = self.streams();
        let ghost key = before[self.current as int][0].0;
        let current: usize = self.current;
        let mut i: usize = 0;
        while i < count
            invariant
                i <= count,
                count == self.iters@.len(),
                current < count,
                before.len() == count,
                old(self).remaining().len() > 0,
                before[current as int].len() > 0,
                key == before[current as int][0].0,
                forall|j: int| 0 <= j < count ==> (#[trigger] self.iters@[j]).wf(),
                old(self).unfailing() ==> forall|j: int|
                    0 <= j < count ==> (#[trigger] self.iters@[j]).unfailing(),
                forall|j: int|
                    0 <= j < count ==> (#[trigger] self.iters@[j]).remaining() == if j < i && j
                        != current {
                        pass_key(before, key)[j]
                    } else {
                        before[j]
                    },
            decreases count - i,
        {
            if i != current && self.iters[i].is_valid() && same_key(
                self.iters[i].key(),
                self.iters[current].key(),
            ) {
                match self.iters[i].next() {
                    Ok(()) => {},
                    Err(error) => {
                        return Err(error);
                    },
                }
            }
            i += 1;
        }
        match self.iters[current].next() {
            Ok(()) => {},
            Err(error) => {
                return Err(error);
            },
        }
        assert(streams_of(self.iters@) =~= pass_key(before, key));
        let (leading, live) = Self::find_leader(&self.iters);
        self.current = leading;
        self.live = live;
        proof {
            assert(old(self).remaining().drop_first() =~= merge_all(pass_key(before, key)));
        }
        Ok(())
    }

    fn num_active_iterators(&self) -> (count: usize) {
        self.live
    }
}

} // verus!
