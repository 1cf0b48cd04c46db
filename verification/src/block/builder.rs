//! Packs entries into a block, within a size budget.
//!
//! An entry is written as the number of leading bytes that its key shares
//! with the first key of the block, the number of remaining key bytes, those
//! bytes, the number of value bytes, and the value. Each number takes two
//! bytes, most significant first.

use crate::block::{
    decodable, decoded, lemma_decode_encode, lemma_offsets_bytes, Block, BlockView,
};
use crate::codec::{be16, low16, put_slice, put_u16, to_u16, u16_at};
use crate::key::{common_prefix, common_prefix_len, lemma_common_prefix_len, KeySlice, KeyVec};
use vstd::prelude::*;
use vstd::slice::slice_subrange;

verus! {

/// Builds a block entry by entry.
pub struct BlockBuilder {
    /// Where each entry starts in `data`.
    offsets: Vec<u16>,
    /// The entries written so far.
    data: Vec<u8>,
    /// The budget for the encoded block, in bytes.
    block_size: usize,
    /// The key of the first entry; empty while there is none.
    first_key: KeyVec,
}

/// What a builder holds.
pub struct BuilderView {
    pub offsets: Seq<u16>,
    pub data: Seq<u8>,
    pub block_size: nat,
    pub first_key: Seq<u8>,
}

/// The bytes of one entry whose key shares `overlap` leading bytes with the
/// first key of its block.
pub open spec fn entry_bytes(overlap: int, key: Seq<u8>, value: Seq<u8>) -> Seq<u8> {
    be16(low16(overlap)) + be16(low16(key.len() - overlap)) + key.subrange(
        overlap,
        key.len() as int,
    ) + be16(low16(value.len() as int)) + value
}

impl BuilderView {
    /// The builder that holds no entry yet.
    pub open spec fn empty(block_size: nat) -> BuilderView {
        BuilderView { offsets: Seq::empty(), data: Seq::empty(), block_size, first_key: Seq::empty() }
    }

    /// Whether no entry has been added.
    pub open spec fn is_empty(self) -> bool {
        self.offsets.len() == 0
    }

    /// The length of the block's byte layout: the entries, two bytes for each
    /// offset, and two bytes for the number of entries.
    pub open spec fn encoded_len(self) -> nat {
        self.data.len() + 2 * self.offsets.len() + 2
    }

    /// Whether an entry is taken: always into an empty builder, and otherwise
    /// when the encoded length plus the key, the value and six bytes for the
    /// entry's fixed fields stays within the budget.
    pub open spec fn accepts(self, key: Seq<u8>, value: Seq<u8>) -> bool {
        self.is_empty() || self.encoded_len() + key.len() + value.len() + 6 <= self.block_size
    }

    /// The number of leading bytes that `key` shares with the first key.
    pub open spec fn overlap_with(self, key: Seq<u8>) -> int {
        common_prefix_len(self.first_key, key)
    }

    /// The builder after it has taken the entry.
    pub open spec fn with_entry(self, key: Seq<u8>, value: Seq<u8>) -> BuilderView {
        BuilderView {
            offsets: self.offsets.push(low16(self.data.len() as int)),
            data: self.data + entry_bytes(self.overlap_with(key), key, value),
            block_size: self.block_size,
            first_key: if self.is_empty() {
                key
            } else {
                self.first_key
            },
        }
    }

    /// The block that the builder gives.
    pub open spec fn block(self) -> BlockView {
        BlockView { data: self.data, offsets: self.offsets }
    }

    /// Whether the fields of an entry can hold what is written to them: the
    /// entry's offset, the length of its key and the length of its value are
    /// below 65536.
    pub open spec fn fits(self, key: Seq<u8>, value: Seq<u8>) -> bool {
        self.data.len() <= 0xFFFF && key.len() <= 0xFFFF && value.len() <= 0xFFFF
    }

    /// Whether the builder holds exactly `entries`, each readable from the
    /// block it gives.
    pub open spec fn holds(self, entries: Seq<(Seq<u8>, Seq<u8>)>) -> bool {
        &&& self.block().parsable()
        &&& self.block().entries() == entries
        &&& entries.len() > 0 ==> self.first_key == self.block().first_key()
    }

    /// What holds of every builder: without entries there is neither data nor
    /// a first key, and each entry takes at least its six bytes of fixed fields.
    pub open spec fn wf(self) -> bool {
        &&& self.is_empty() ==> self.data.len() == 0 && self.first_key.len() == 0
        &&& 6 * self.offsets.len() <= self.data.len()
    }
}

/// An entry takes its six bytes of fixed fields, the key bytes after the
/// overlap, and the value.
pub proof fn lemma_entry_bytes_len(overlap: int, key: Seq<u8>, value: Seq<u8>)
    requires
        0 <= overlap <= key.len(),
    ensures
        entry_bytes(overlap, key, value).len() == 6 + (key.len() - overlap) + value.len(),
{
}

/// Taking an entry keeps a builder well formed and grows the encoded length
/// by the entry's bytes and the two bytes of its offset.
pub proof fn lemma_with_entry(b: BuilderView, key: Seq<u8>, value: Seq<u8>)
    requires
        b.wf(),
    ensures
        b.with_entry(key, value).wf(),
        !b.with_entry(key, value).is_empty(),
        b.with_entry(key, value).encoded_len() == b.encoded_len() + 8 + key.len()
            - b.overlap_with(key) + value.len(),
{
    lemma_common_prefix_len(b.first_key, key);
    lemma_entry_bytes_len(b.overlap_with(key), key, value);
}

/// An entry taken into a builder that already holds one leaves the encoded
/// block at most two bytes over the budget, less the bytes that its key
/// shares with the first key; so a block of several entries whose last key
/// shares two bytes or more with the first is within the budget.
pub proof fn lemma_size_budget(b: BuilderView, key: Seq<u8>, value: Seq<u8>)
    requires
        b.wf(),
        !b.is_empty(),
        b.accepts(key, value),
    ensures
        b.with_entry(key, value).encoded_len() <= b.block_size + 2 - b.overlap_with(key),
        b.overlap_with(key) >= 2 ==> b.with_entry(key, value).encoded_len() <= b.block_size,
{
    lemma_with_entry(b, key, value);
}

/// The fields of an entry that is written whole, read where it was
/// appended to `data`: the overlap, the stored key bytes and the value.
pub proof fn lemma_entry_read_back(data: Seq<u8>, overlap: int, key: Seq<u8>, value: Seq<u8>)
    requires
        0 <= overlap <= key.len() <= 0xFFFF,
        value.len() <= 0xFFFF,
    ensures
        ({
            let after = data + entry_bytes(overlap, key, value);
            let at = data.len() as int;
            let suffix_end = at + 4 + key.len() - overlap;
            &&& after.len() == suffix_end + 2 + value.len()
            &&& u16_at(after, at) == overlap
            &&& u16_at(after, at + 2) == key.len() - overlap
            &&& after.subrange(at + 4, suffix_end) == key.skip(overlap)
            &&& u16_at(after, suffix_end) == value.len()
            &&& after.subrange(suffix_end + 2, suffix_end + 2 + value.len()) == value
        }),
{
    let written = entry_bytes(overlap, key, value);
    let after = data + written;
    let at = data.len() as int;
    let suffix_end = at + 4 + key.len() - overlap;
    lemma_entry_bytes_len(overlap, key, value);
    assert forall|p: int| 0 <= p < written.len() implies after[at + p] == written[p] by {}
    assert(after[at] == written[0]);
    assert(after[at + 1] == written[1]);
    assert(after[at + 2] == written[2]);
    assert(after[at + 3] == written[3]);
    assert(after[suffix_end] == written[suffix_end - at]);
    assert(after[suffix_end + 1] == written[suffix_end - at + 1]);
    assert(after.subrange(at + 4, suffix_end) =~= key.skip(overlap));
    assert(after.subrange(suffix_end + 2, suffix_end + 2 + value.len()) =~= value);
}

/// What is read within `data` is read the same once more bytes follow.
pub proof fn lemma_reads_kept(data: Seq<u8>, more: Seq<u8>)
    ensures
        forall|p: int| 0 <= p && p + 1 < data.len() ==> #[trigger] u16_at(data + more, p) == u16_at(data, p),
        forall|from: int, to: int|
            0 <= from <= to <= data.len() ==> #[trigger] (data + more).subrange(from, to)
                == data.subrange(from, to),
{
    assert forall|from: int, to: int| 0 <= from <= to <= data.len() implies #[trigger] (data
        + more).subrange(from, to) == data.subrange(from, to) by {
        assert((data + more).subrange(from, to) =~= data.subrange(from, to));
    }
}

/// An entry of a block is read the same once more bytes and one more
/// offset follow.
pub proof fn lemma_entry_kept(block: BlockView, more: Seq<u8>, offset: u16, i: int)
    requires
        0 <= i < block.count(),
        block.has_first_key(),
        block.entry_fits(i),
    ensures
        ({
            let after = BlockView { data: block.data + more, offsets: block.offsets.push(offset) };
            &&& after.first_key() == block.first_key()
            &&& after.entry_fits(i)
            &&& after.key(i) == block.key(i)
            &&& after.value(i) == block.value(i)
        }),
{
    let after = BlockView { data: block.data + more, offsets: block.offsets.push(offset) };
    lemma_reads_kept(block.data, more);
    assert(after.offsets[i] == block.offsets[i]);
    assert(u16_at(after.data, 2) == u16_at(block.data, 2));
    assert(after.first_key() == block.first_key());
    assert(after.overlap(i) == block.overlap(i));
    assert(after.suffix_end(i) == block.suffix_end(i));
    assert(after.value_end(i) == block.value_end(i));
}

/// An entry that is written whole can be read back: a builder that holds
/// `entries` holds them and the new entry after taking it.
pub proof fn lemma_with_entry_holds(
    b: BuilderView,
    entries: Seq<(Seq<u8>, Seq<u8>)>,
    key: Seq<u8>,
    value: Seq<u8>,
)
    requires
        b.wf(),
        b.holds(entries),
        b.fits(key, value),
    ensures
        b.with_entry(key, value).holds(entries.push((key, value))),
{
    let after = b.with_entry(key, value);
    let old_block = b.block();
    let new_block = after.block();
    let n = entries.len() as int;
    let at = b.data.len() as int;
    let overlap = b.overlap_with(key);
    let written = entry_bytes(overlap, key, value);
    lemma_common_prefix_len(b.first_key, key);
    lemma_entry_read_back(b.data, overlap, key, value);
    assert(new_block.data == b.data + written);
    assert(new_block.offsets == old_block.offsets.push(low16(at)));
    assert(new_block.offsets[n] == at);
    assert(new_block.overlap(n) == overlap);
    assert(new_block.suffix_end(n) == at + 4 + key.len() - overlap);
    assert(new_block.value(n) == value);
    if n == 0 {
        assert(key.skip(0) =~= key);
        assert(new_block.first_key() == key);
    } else {
        assert(old_block.entry_fits(0));
        lemma_entry_kept(old_block, written, low16(at), 0);
    }
    assert(new_block.key(n) == key) by {
        assert(new_block.first_key().take(overlap) == key.take(overlap));
        assert(key.take(overlap) + key.skip(overlap) =~= key);
    }
    assert(new_block.entry_fits(n));
    assert forall|i: int| 0 <= i < n + 1 implies #[trigger] new_block.entry_fits(i) by {
        if i < n {
            assert(old_block.entry_fits(i));
            lemma_entry_kept(old_block, written, low16(at), i);
        }
    }
    assert forall|i: int| 0 <= i < n implies new_block.entries()[i] == entries[i] by {
        assert(old_block.entry_fits(i));
        lemma_entry_kept(old_block, written, low16(at), i);
        assert(old_block.entries()[i] == entries[i]);
    }
    assert(new_block.entries() =~= entries.push((key, value)));
}

/// The builder that an empty one becomes when `entries` are taken in order.
pub open spec fn built_from(block_size: nat, entries: Seq<(Seq<u8>, Seq<u8>)>) -> BuilderView
    decreases entries.len(),
{
    if entries.len() == 0 {
        BuilderView::empty(block_size)
    } else {
        built_from(block_size, entries.drop_last()).with_entry(entries.last().0, entries.last().1)
    }
}

/// Whether each of `entries`, added in order to an empty builder, is taken.
pub open spec fn all_taken(block_size: nat, entries: Seq<(Seq<u8>, Seq<u8>)>) -> bool
    decreases entries.len(),
{
    entries.len() == 0 || {
        &&& all_taken(block_size, entries.drop_last())
        &&& built_from(block_size, entries.drop_last()).accepts(entries.last().0, entries.last().1)
    }
}

/// Whether each of `entries`, added in order to an empty builder, is written
/// whole: its fields hold its offset and its lengths.
pub open spec fn all_whole(block_size: nat, entries: Seq<(Seq<u8>, Seq<u8>)>) -> bool
    decreases entries.len(),
{
    entries.len() == 0 || {
        &&& all_whole(block_size, entries.drop_last())
        &&& built_from(block_size, entries.drop_last()).fits(entries.last().0, entries.last().1)
    }
}

/// Whatever is added, the builder stays well formed and has one offset for
/// each entry.
pub proof fn lemma_built_from(block_size: nat, entries: Seq<(Seq<u8>, Seq<u8>)>)
    ensures
        built_from(block_size, entries).wf(),
        built_from(block_size, entries).block_size == block_size,
        built_from(block_size, entries).offsets.len() == entries.len(),
    decreases entries.len(),
{
    if entries.len() > 0 {
        lemma_built_from(block_size, entries.drop_last());
        lemma_with_entry(
            built_from(block_size, entries.drop_last()),
            entries.last().0,
            entries.last().1,
        );
    }
}

/// Entries that are written whole can all be read back from the builder,
/// and there are fewer than 65536 of them.
pub proof fn lemma_built_from_holds(block_size: nat, entries: Seq<(Seq<u8>, Seq<u8>)>)
    requires
        all_whole(block_size, entries),
    ensures
        built_from(block_size, entries).holds(entries),
        entries.len() <= 0xFFFF,
    decreases entries.len(),
{
    if entries.len() == 0 {
        assert(BuilderView::empty(block_size).block().entries() =~= entries);
    } else {
        let front = entries.drop_last();
        let before = built_from(block_size, front);
        lemma_built_from(block_size, front);
        lemma_built_from_holds(block_size, front);
        lemma_with_entry_holds(before, front, entries.last().0, entries.last().1);
        assert(front.push(entries.last()) =~= entries);
    }
}

/// Entries that fit one block come back from its bytes: where each entry is
/// written whole, the block built of them is read back unchanged from its
/// byte layout, and its entries are the ones added, in their order.
pub proof fn lemma_round_trip(block_size: nat, entries: Seq<(Seq<u8>, Seq<u8>)>)
    requires
        all_taken(block_size, entries),
        all_whole(block_size, entries),
    ensures
        ({
            let block = built_from(block_size, entries).block();
            &&& decodable(block.encoded())
            &&& decoded(block.encoded()) == block
            &&& block.parsable()
            &&& block.entries() == entries
        }),
{
    lemma_built_from_holds(block_size, entries);
    lemma_decode_encode(built_from(block_size, entries).block());
}

/// A block of two entries or more is at most two bytes over the budget, less
/// the bytes that its last key shares with its first; with a last key that
/// shares two bytes or more it is within the budget.
pub proof fn lemma_block_size_budget(block_size: nat, entries: Seq<(Seq<u8>, Seq<u8>)>)
    requires
        all_taken(block_size, entries),
        entries.len() >= 2,
    ensures
        ({
            let shared = built_from(block_size, entries.drop_last()).overlap_with(
                entries.last().0,
            );
            let built = built_from(block_size, entries);
            &&& built.block().encoded().len() == built.encoded_len()
            &&& built.encoded_len() <= block_size + 2 - shared
            &&& shared >= 2 ==> built.encoded_len() <= block_size
        }),
{
    let front = entries.drop_last();
    lemma_built_from(block_size, front);
    lemma_size_budget(built_from(block_size, front), entries.last().0, entries.last().1);
    lemma_offsets_bytes(built_from(block_size, entries).offsets);
}

impl View for BlockBuilder {
    type V = BuilderView;

    closed spec fn view(&self) -> BuilderView {
        BuilderView {
            offsets: self.offsets@,
            data: self.data@,
            block_size: self.block_size as nat,
            first_key: self.first_key@,
        }
    }
}

impl BlockBuilder {
    /// What every builder keeps true of itself: its contents are well
    /// formed, and the block it gives can be laid out in one buffer.
    pub open spec fn wf(&self) -> bool {
        self@.wf() && self@.encoded_len() <= isize::MAX
    }

    /// A builder without entries, for blocks of at most `block_size` encoded
    /// bytes.
    pub fn new(block_size: usize) -> (builder: Self)
        ensures
            builder@ == BuilderView::empty(block_size as nat),
            builder.wf(),
    {
        BlockBuilder {
            offsets: Vec::new(),
            data: Vec::new(),
            block_size,
            first_key: KeyVec::new(),
        }
    }

    /// The number of leading bytes that `key` shares with the first key.
    pub fn compute_key_overlap(&self, key: &[u8]) -> (overlap: usize)
        ensures
            overlap == self@.overlap_with(key@),
    {
        common_prefix(self.first_key.raw_ref(), key)
    }

    /// Adds an entry, unless the block is full. An empty builder takes any
    /// entry; another takes it when the encoded block, with the key, the
    /// value and six bytes more, stays within the budget. Returns whether the
    /// entry was taken; a builder that refuses is left as it was.
    ///
    /// The block with the entry must not be longer than a buffer can be.
    #[must_use]
    pub fn add(&mut self, key: KeySlice, value: &[u8]) -> (taken: bool)
        requires
            old(self).wf(),
            old(self)@.encoded_len() + key@.len() + value@.len() + 8 <= isize::MAX,
        ensures
            final(self).wf(),
            taken == old(self)@.accepts(key@, value@),
            taken ==> final(self)@ == old(self)@.with_entry(key@, value@),
            !taken ==> final(self)@ == old(self)@,
    {
        let was_empty = self.is_empty();
        if !was_empty {
            let current: usize = self.encoded_len();
            if current + key.len() + value.len() + 6 > self.block_size {
                return false;
            }
        }
        proof {
            lemma_with_entry(old(self)@, key@, value@);
            lemma_common_prefix_len(old(self)@.first_key, key@);
        }
        let key_bytes = key.raw_ref();
        let overlap: usize = self.compute_key_overlap(key_bytes);
        self.offsets.push(to_u16(self.data.len()));
        put_u16(&mut self.data, to_u16(overlap));
        put_u16(&mut self.data, to_u16(key_bytes.len() - overlap));
        put_slice(&mut self.data, slice_subrange(key_bytes, overlap, key_bytes.len()));
        put_u16(&mut self.data, to_u16(value.len()));
        put_slice(&mut self.data, value);
        if was_empty {
            self.first_key = key.to_key_vec();
        }
        proof {
            assert(self.data@ =~= old(self)@.data + entry_bytes(overlap as int, key@, value@));
        }
        true
    }

    /// Whether no entry has been added.
    pub fn is_empty(&self) -> (empty: bool)
        ensures
            empty == self@.is_empty(),
    {
        self.offsets.len() == 0
    }

    /// The length of the byte layout of the block built so far.
    pub fn encoded_len(&self) -> (len: usize)
        requires
            self.wf(),
        ensures
            len == self@.encoded_len(),
    {
        self.data.len() + self.offsets.len() * 2 + 2
    }

    /// The block of the entries added so far.
    pub fn build(self) -> (block: Block)
        ensures
            block@ == self@.block(),
    {
        Block::from_parts(self.data, self.offsets)
    }
}

} // verus!
