//! A block: one sorted run of key-value entries with an index of where each
//! entry starts, and its byte layout.
//!
//! The layout is the entries one after another, followed by each entry's
//! offset as a big-endian 16-bit number and, last, by the number of entries
//! in the same form.

pub mod builder;
pub mod iterator;

use crate::codec::{be16, bytes_from_vec, bytes_view, get_u16, low16, put_u16, to_u16, u16_at};
use crate::key::KeyVec;
use bytes::Bytes;
use vstd::prelude::*;
use vstd::slice::{slice_subrange, slice_to_vec};

verus! {

/// A run of entries and the offset at which each one starts.
pub struct Block {
    data: Vec<u8>,
    offsets: Vec<u16>,
}

/// What a block holds: the bytes of its entries and the entries' offsets.
pub struct BlockView {
    pub data: Seq<u8>,
    pub offsets: Seq<u16>,
}

/// The offsets, each written as two big-endian bytes, one after another.
pub open spec fn offsets_bytes(offsets: Seq<u16>) -> Seq<u8>
    decreases offsets.len(),
{
    if offsets.len() == 0 {
        Seq::empty()
    } else {
        offsets_bytes(offsets.drop_last()) + be16(offsets.last())
    }
}

/// Whether `bytes` is long enough for the number of entries that its last two
/// bytes declare.
pub open spec fn decodable(bytes: Seq<u8>) -> bool {
    &&& bytes.len() >= 2
    &&& bytes.len() >= 2 + 2 * u16_at(bytes, bytes.len() - 2)
}

/// The block that `bytes` lays out: the last two bytes give the number of
/// entries, the offsets stand before them, and the rest is entry data.
pub open spec fn decoded(bytes: Seq<u8>) -> BlockView {
    let count = u16_at(bytes, bytes.len() - 2) as int;
    let data_end = bytes.len() - 2 - 2 * count;
    BlockView {
        data: bytes.subrange(0, data_end),
        offsets: Seq::new(count as nat, |i: int| u16_at(bytes, data_end + 2 * i)),
    }
}

impl BlockView {
    /// The byte layout of the block.
    pub open spec fn encoded(self) -> Seq<u8> {
        self.data + offsets_bytes(self.offsets) + be16(low16(self.offsets.len() as int))
    }

    /// Whether the data starts with a whole key: two bytes of overlap length,
    /// two bytes of key length, and that many bytes.
    pub open spec fn has_first_key(self) -> bool {
        &&& self.data.len() >= 4
        &&& 4 + u16_at(self.data, 2) <= self.data.len()
    }

    /// The key of the first entry.
    pub open spec fn first_key(self) -> Seq<u8> {
        self.data.subrange(4, 4 + u16_at(self.data, 2))
    }

    /// The number of entries.
    pub open spec fn count(self) -> nat {
        self.offsets.len()
    }

    /// The number of leading bytes that the key of entry `i` takes from the
    /// first key.
    pub open spec fn overlap(self, i: int) -> int {
        u16_at(self.data, self.offsets[i] as int) as int
    }

    /// Where the stored key bytes of entry `i` start.
    pub open spec fn suffix_start(self, i: int) -> int {
        self.offsets[i] + 4
    }

    /// Where the stored key bytes of entry `i` end.
    pub open spec fn suffix_end(self, i: int) -> int {
        self.suffix_start(i) + u16_at(self.data, self.offsets[i] + 2)
    }

    /// Where the value of entry `i` starts.
    pub open spec fn value_start(self, i: int) -> int {
        self.suffix_end(i) + 2
    }

    /// Where the value of entry `i` ends.
    pub open spec fn value_end(self, i: int) -> int {
        self.value_start(i) + u16_at(self.data, self.suffix_end(i))
    }

    /// Whether entry `i` lies whole within the data and takes no more from
    /// the first key than the first key has.
    pub open spec fn entry_fits(self, i: int) -> bool {
        &&& self.suffix_start(i) <= self.data.len()
        &&& self.value_start(i) <= self.data.len()
        &&& self.value_end(i) <= self.data.len()
        &&& self.overlap(i) <= self.first_key().len()
    }

    /// The key of entry `i`: what it takes from the first key, and its
    /// stored bytes.
    pub open spec fn key(self, i: int) -> Seq<u8> {
        self.first_key().take(self.overlap(i)) + self.data.subrange(
            self.suffix_start(i),
            self.suffix_end(i),
        )
    }

    /// The value of entry `i`.
    pub open spec fn value(self, i: int) -> Seq<u8> {
        self.data.subrange(self.value_start(i), self.value_end(i))
    }

    /// Whether every entry can be read: the first key is whole and each
    /// entry fits.
    pub open spec fn parsable(self) -> bool {
        self.count() > 0 ==> {
            &&& self.has_first_key()
            &&& forall|i: int| 0 <= i < self.count() ==> #[trigger] self.entry_fits(i)
        }
    }

    /// The entries of the block, in stored order.
    pub open spec fn entries(self) -> Seq<(Seq<u8>, Seq<u8>)> {
        Seq::new(self.count(), |i: int| (self.key(i), self.value(i)))
    }
}

impl View for Block {
    type V = BlockView;

    closed spec fn view(&self) -> BlockView {
        BlockView { data: self.data@, offsets: self.offsets@ }
    }
}

/// The offsets take two bytes each, and the bytes of the offset at `i` stand
/// at `2 * i`.
pub proof fn lemma_offsets_bytes(offsets: Seq<u16>)
    ensures
        offsets_bytes(offsets).len() == 2 * offsets.len(),
        forall|i: int|
            0 <= i < offsets.len() ==> u16_at(offsets_bytes(offsets), 2 * i) == #[trigger] offsets[i],
    decreases offsets.len(),
{
    if offsets.len() > 0 {
        let front = offsets.drop_last();
        lemma_offsets_bytes(front);
        assert forall|i: int| 0 <= i < offsets.len() implies u16_at(offsets_bytes(offsets), 2 * i)
            == #[trigger] offsets[i] by {
            if i < front.len() {
                assert(front[i] == offsets[i]);
                assert(u16_at(offsets_bytes(front), 2 * i) == front[i]);
            }
        }
    }
}

/// A block of at most 65535 entries is read back from its layout unchanged.
pub proof fn lemma_decode_encode(block: BlockView)
    requires
        block.offsets.len() <= 0xFFFF,
    ensures
        decodable(block.encoded()),
        decoded(block.encoded()) == block,
{
    let bytes = block.encoded();
    let n = block.offsets.len() as int;
    lemma_offsets_bytes(block.offsets);
    assert(bytes.len() == block.data.len() + 2 * n + 2);
    assert(u16_at(bytes, bytes.len() - 2) == n);
    let back = decoded(bytes);
    assert(back.data =~= block.data);
    assert forall|i: int| 0 <= i < n implies back.offsets[i] == block.offsets[i] by {
        assert(u16_at(offsets_bytes(block.offsets), 2 * i) == block.offsets[i]);
        assert(bytes[block.data.len() + 2 * i] == offsets_bytes(block.offsets)[2 * i]);
        assert(bytes[block.data.len() + 2 * i + 1] == offsets_bytes(block.offsets)[2 * i + 1]);
    }
    assert(back.offsets =~= block.offsets);
}

impl Block {
    /// The block of the given entry bytes and offsets.
    pub(crate) fn from_parts(data: Vec<u8>, offsets: Vec<u16>) -> (block: Self)
        ensures
            block@ == (BlockView { data: data@, offsets: offsets@ }),
    {
        Block { data, offsets }
    }

    /// The bytes of the entries.
    pub fn data(&self) -> (data: &[u8])
        ensures
            data@ == self@.data,
    {
        self.data.as_slice()
    }

    /// The offset at which each entry starts.
    pub fn offsets(&self) -> (offsets: &[u16])
        ensures
            offsets@ == self@.offsets,
    {
        self.offsets.as_slice()
    }

    /// Lays the block out as bytes: the entry data, each offset as a
    /// big-endian 16-bit number, and the number of entries in the same form.
    pub fn encode(&self) -> (bytes: Bytes)
        requires
            self@.data.len() + 2 * self@.offsets.len() + 2 <= isize::MAX,
        ensures
            bytes_view(bytes) == self@.encoded(),
    {
        let mut buf: Vec<u8> = self.data.clone();
        assert(buf@ =~= self.data@);
        let count: usize = self.offsets.len();
        let mut i: usize = 0;
        while i < count
            invariant
                i <= count,
                count == self.offsets@.len(),
                self.data@.len() + 2 * count + 2 <= isize::MAX,
                buf@.len() == self.data@.len() + 2 * i,
                buf@ == self.data@ + offsets_bytes(self.offsets@.take(i as int)),
            decreases count - i,
        {
            put_u16(&mut buf, self.offsets[i]);
            proof {
                let before = self.offsets@.take(i as int);
                let after = self.offsets@.take(i + 1);
                assert(after.drop_last() =~= before);
                assert(after.last() == self.offsets@[i as int]);
                assert(buf@ =~= self.data@ + offsets_bytes(after));
            }
            i += 1;
        }
        assert(self.offsets@.take(count as int) =~= self.offsets@);
        put_u16(&mut buf, to_u16(count));
        bytes_from_vec(buf)
    }

    /// Reads a block from its byte layout. The bytes must be long enough
    /// for the number of entries that their last two bytes declare.
    pub fn decode(data: &[u8]) -> (block: Self)
        requires
            decodable(data@),
        ensures
            block@ == decoded(data@),
    {
        let len: usize = data.len();
        let count: usize = get_u16(slice_subrange(data, len - 2, len)) as usize;
        let data_end: usize = len - 2 - count * 2;
        let entries = slice_to_vec(slice_subrange(data, 0, data_end));
        let mut offsets: Vec<u16> = Vec::new();
        let mut i: usize = 0;
        while i < count
            invariant
                i <= count,
                len == data@.len(),
                data_end + 2 * count + 2 == len,
                offsets@.len() == i,
                forall|j: int| 0 <= j < i ==> offsets@[j] == u16_at(data@, data_end + 2 * j),
            decreases count - i,
        {
            let at: usize = data_end + 2 * i;
            offsets.push(get_u16(slice_subrange(data, at, at + 2)));
            i += 1;
        }
        assert(offsets@ =~= decoded(data@).offsets);
        Block { data: entries, offsets }
    }

    /// Whether `data` is long enough to be decoded: it ends with a number of
    /// entries and holds that many offsets before it.
    pub fn can_decode(data: &[u8]) -> (ok: bool)
        ensures
            ok == decodable(data@),
    {
        let len: usize = data.len();
        if len < 2 {
            return false;
        }
        let count: usize = get_u16(slice_subrange(data, len - 2, len)) as usize;
        len - 2 >= 2 * count
    }

    /// Reads a block from its byte layout, or gives `None` if the bytes are
    /// too short for the number of entries that their last two bytes declare.
    pub fn try_decode(data: &[u8]) -> (block: Option<Self>)
        ensures
            decodable(data@) ==> block is Some && block->0@ == decoded(data@),
            !decodable(data@) ==> block is None,
    {
        if Self::can_decode(data) {
            Some(Self::decode(data))
        } else {
            None
        }
    }

    /// Whether the block starts with a whole key.
    pub fn starts_with_key(&self) -> (ok: bool)
        ensures
            ok == self@.has_first_key(),
    {
        let data = self.data.as_slice();
        if data.len() < 4 {
            return false;
        }
        let key_len: usize = get_u16(slice_subrange(data, 2, 4)) as usize;
        key_len <= data.len() - 4
    }

    /// Whether every entry of the block can be read.
    pub fn is_parsable(&self) -> (ok: bool)
        ensures
            ok == self@.parsable(),
    {
        let count: usize = self.offsets.len();
        if count == 0 {
            return true;
        }
        if !self.starts_with_key() {
            return false;
        }
        let data = self.data.as_slice();
        let len: usize = data.len();
        let first_key_len: usize = get_u16(slice_subrange(data, 2, 4)) as usize;
        let mut i: usize = 0;
        while i < count
            invariant
                i <= count,
                count == self@.count(),
                data@ == self@.data,
                len == data@.len(),
                self@.has_first_key(),
                first_key_len == self@.first_key().len(),
                forall|j: int| 0 <= j < i ==> #[trigger] self@.entry_fits(j),
            decreases count - i,
        {
            let at: usize = self.offsets[i] as usize;
            if len < 4 || at > len - 4 {
                assert(!self@.entry_fits(i as int));
                return false;
            }
            let overlap: usize = get_u16(slice_subrange(data, at, at + 2)) as usize;
            let suffix_len: usize = get_u16(slice_subrange(data, at + 2, at + 4)) as usize;
            let suffix_end: usize = at + 4 + suffix_len;
            if len < 2 || suffix_end > len - 2 {
                assert(!self@.entry_fits(i as int));
                return false;
            }
            let value_len: usize = get_u16(slice_subrange(data, suffix_end, suffix_end + 2)) as usize;
            if suffix_end + 2 + value_len > len || overlap > first_key_len {
                assert(!self@.entry_fits(i as int));
                return false;
            }
            assert(self@.entry_fits(i as int));
            i += 1;
        }
        true
    }

    /// The key of the first entry. The block must start with a whole key.
    pub fn get_first_key(&self) -> (key: KeyVec)
        requires
            self@.has_first_key(),
        ensures
            key@ == self@.first_key(),
    {
        let data = self.data.as_slice();
        let key_len: usize = get_u16(slice_subrange(data, 2, 4)) as usize;
        KeyVec::from_vec(slice_to_vec(slice_subrange(data, 4, 4 + key_len)))
    }
}

} // verus!
