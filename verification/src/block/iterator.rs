//! A forward cursor over the entries of a block.

use crate::block::Block;
use crate::codec::get_u16;
use crate::iterators::{StorageError, StorageIterator};
use crate::key::{key_lt, precedes};
use vstd::prelude::*;
use vstd::slice::{slice_subrange, slice_to_vec};

verus! {

/// Walks the entries of a block in stored order, rebuilding each key from
/// the first key of the block and the bytes stored with the entry.
pub struct BlockIterator {
    block: Block,
    /// The first key of the block; empty if the block has no entry.
    first_key: Vec<u8>,
    /// The index of the current entry; the number of entries at the end.
    idx: usize,
    /// The key of the current entry; empty at the end.
    key: Vec<u8>,
    /// Where the value of the current entry starts in the block's data.
    value_start: usize,
    /// Where the value of the current entry ends.
    value_end: usize,
}

impl BlockIterator {
    /// The block under the cursor.
    pub closed spec fn block(&self) -> Block {
        self.block
    }

    /// The index of the current entry; the number of entries at the end.
    pub closed spec fn position(&self) -> nat {
        self.idx as nat
    }

    /// A cursor on the first entry of `block`. Every entry of the block must
    /// be readable.
    pub fn create_and_seek_to_first(block: Block) -> (iter: Self)
        requires
            block@.parsable(),
        ensures
            iter.wf(),
            iter.block() == block,
            iter.position() == 0,
            iter.remaining() == block@.entries(),
    {
        let first_key = if block.offsets().len() > 0 {
            block.get_first_key().into_inner()
        } else {
            Vec::new()
        };
        let mut iter = BlockIterator {
            block,
            first_key,
            idx: 0,
            key: Vec::new(),
            value_start: 0,
            value_end: 0,
        };
        iter.seek_to(0);
        assert(iter.remaining() =~= block@.entries());
        iter
    }

    /// A cursor on the first entry of `block` whose key is not before
    /// `key`. Every entry of the block must be readable.
    pub fn create_and_seek_to_key(block: Block, key: &[u8]) -> (iter: Self)
        requires
            block@.parsable(),
        ensures
            iter.wf(),
            iter.block() == block,
            first_not_before(block@.entries(), key@, iter.position() as int),
    {
        let mut iter = Self::create_and_seek_to_first(block);
        iter.seek_to_key(key);
        iter
    }

    /// Moves back to the first entry.
    pub fn seek_to_first(&mut self)
        requires
            old(self).wf(),
        ensures
            final(self).wf(),
            final(self).block() == old(self).block(),
            final(self).position() == 0,
    {
        self.seek_to(0);
    }

    /// Moves to the first entry whose key is not before `key`, or to the end
    /// if there is none.
    pub fn seek_to_key(&mut self, key: &[u8])
        requires
            old(self).wf(),
        ensures
            final(self).wf(),
            final(self).block() == old(self).block(),
            first_not_before(final(self).block()@.entries(), key@, final(self).position() as int),
    {
        self.seek_to(0);
        while self.idx < self.block.offsets().len() && precedes(self.key.as_slice(), key)
            invariant
                self.wf(),
                self.block() == old(self).block(),
                forall|i: int|
                    0 <= i < self.position() ==> key_lt(
                        (#[trigger] self.block()@.entries()[i]).0,
                        key@,
                    ),
            decreases self.block()@.count() - self.position(),
        {
            let following: usize = self.idx + 1;
            self.seek_to(following);
        }
    }

    /// Places the cursor on entry `idx`, or at the end if there is no such
    /// entry.
    fn seek_to(&mut self, idx: usize)
        requires
            old(self).block@.parsable(),
            old(self).block@.count() > 0 ==> old(self).first_key@ == old(self).block@.first_key(),
        ensures
            final(self).wf(),
            final(self).block() == old(self).block(),
            final(self).position() == if idx < old(self).block@.count() {
                idx as nat
            } else {
                old(self).block@.count()
            },
    {
        let count: usize = self.block.offsets().len();
        if idx >= count {
            self.idx = count;
            self.key = Vec::new();
            self.value_start = 0;
            self.value_end = 0;
            return ;
        }
        assert(self.block@.entry_fits(idx as int));
        let data = self.block.data();
        let at: usize = self.block.offsets()[idx] as usize;
        let overlap: usize = get_u16(slice_subrange(data, at, at + 2)) as usize;
        let suffix_len: usize = get_u16(slice_subrange(data, at + 2, at + 4)) as usize;
        let suffix_start: usize = at + 4;
        let suffix_end: usize = suffix_start + suffix_len;
        let value_len: usize = get_u16(slice_subrange(data, suffix_end, suffix_end + 2)) as usize;
        let mut key = slice_to_vec(slice_subrange(self.first_key.as_slice(), 0, overlap));
        key.extend_from_slice(slice_subrange(data, suffix_start, suffix_end));
        assert(key@ =~= self.block@.key(idx as int));
        self.key = key;
        self.value_start = suffix_end + 2;
        self.value_end = suffix_end + 2 + value_len;
        self.idx = idx;
    }
}

/// Whether `at` is the index of the first of `entries` whose key is not
/// before `key`, or their number if every key is before it.
pub open spec fn first_not_before(
    entries: Seq<(Seq<u8>, Seq<u8>)>,
    key: Seq<u8>,
    at: int,
) -> bool {
    &&& 0 <= at <= entries.len()
    &&& forall|i: int| 0 <= i < at ==> key_lt((#[trigger] entries[i]).0, key)
    &&& at < entries.len() ==> !key_lt(entries[at].0, key)
}

impl StorageIterator for BlockIterator {
    closed spec fn wf(&self) -> bool {
        &&& self.block@.parsable()
        &&& self.idx <= self.block@.count()
        &&& self.block@.count() > 0 ==> self.first_key@ == self.block@.first_key()
        &&& self.idx < self.block@.count() ==> {
            &&& self.key@ == self.block@.key(self.idx as int)
            &&& self.value_start == self.block@.value_start(self.idx as int)
            &&& self.value_end == self.block@.value_end(self.idx as int)
        }
    }

    open spec fn active(&self) -> nat {
        1
    }

    open spec fn unfailing(&self) -> bool {
        true
    }

    open spec fn remaining(&self) -> Seq<(Seq<u8>, Seq<u8>)> {
        self.block()@.entries().skip(self.position() as int)
    }

    fn is_valid(&self) -> (valid: bool) {
        self.idx < self.block.offsets().len()
    }

    fn key(&self) -> (key: &[u8]) {
        self.key.as_slice()
    }

    fn value(&self) -> (value: &[u8]) {
        proof {
            assert(self.block@.entry_fits(self.idx as int));
        }
        slice_subrange(self.block.data(), self.value_start, self.value_end)
    }

    /// Moves to the next entry; at the end nothing changes. Never fails.
    fn next(&mut self) -> (outcome: Result<(), StorageError>)
        ensures
            outcome is Ok,
            final(self).wf(),
            final(self).block() == old(self).block(),
            final(self).position() == if old(self).position() < old(self).block()@.count() {
                old(self).position() + 1
            } else {
                old(self).position()
            },
    {
        if self.idx < self.block.offsets().len() {
            let following: usize = self.idx + 1;
            self.seek_to(following);
            assert(self.remaining() =~= old(self).remaining().drop_first());
        }
        Ok(())
    }

    fn num_active_iterators(&self) -> (count: usize) {
        1
    }
}

} // verus!
