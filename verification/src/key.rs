//! Keys as byte strings: a borrowed form and an owned form.

use vstd::prelude::*;
use vstd::slice::slice_to_vec;

verus! {

/// A key borrowed from its owner.
#[derive(Clone, Copy, Debug)]
pub struct KeySlice<'a>(&'a [u8]);

/// A key that owns its bytes.
#[derive(Debug)]
pub struct KeyVec(Vec<u8>);

/// The first index at or after `from` at which `a` and `b` differ or one of
/// them ends.
pub open spec fn common_prefix_from(a: Seq<u8>, b: Seq<u8>, from: int) -> int
    decreases a.len() - from,
{
    if 0 <= from < a.len() && from < b.len() && a[from] == b[from] {
        common_prefix_from(a, b, from + 1)
    } else {
        from
    }
}

/// The length of the longest common prefix of `a` and `b`.
pub open spec fn common_prefix_len(a: Seq<u8>, b: Seq<u8>) -> int {
    common_prefix_from(a, b, 0)
}

/// Whether `a` comes before `b` in the order of keys: byte by byte, and a
/// proper prefix before what it is a prefix of.
pub open spec fn key_lt(a: Seq<u8>, b: Seq<u8>) -> bool {
    let n = common_prefix_len(a, b);
    n < b.len() && (n == a.len() || a[n] < b[n])
}

/// Whether `a` comes before `b` in the order of keys or equals it.
pub open spec fn key_le(a: Seq<u8>, b: Seq<u8>) -> bool {
    !key_lt(b, a)
}

/// The common prefix length is within both lengths, the two agree before it,
/// and at it they differ or one of them ends.
pub proof fn lemma_common_prefix_from(a: Seq<u8>, b: Seq<u8>, from: int)
    requires
        0 <= from <= a.len(),
        from <= b.len(),
    ensures
        from <= common_prefix_from(a, b, from) <= a.len(),
        common_prefix_from(a, b, from) <= b.len(),
        forall|i: int| from <= i < common_prefix_from(a, b, from) ==> a[i] == b[i],
        ({
            let n = common_prefix_from(a, b, from);
            n == a.len() || n == b.len() || a[n] != b[n]
        }),
    decreases a.len() - from,
{
    if from < a.len() && from < b.len() && a[from] == b[from] {
        lemma_common_prefix_from(a, b, from + 1);
    }
}

/// The longest common prefix: within both lengths, equal bytes before it, and
/// no longer one exists.
pub proof fn lemma_common_prefix_len(a: Seq<u8>, b: Seq<u8>)
    ensures
        0 <= common_prefix_len(a, b) <= a.len(),
        common_prefix_len(a, b) <= b.len(),
        a.take(common_prefix_len(a, b)) == b.take(common_prefix_len(a, b)),
        ({
            let n = common_prefix_len(a, b);
            n == a.len() || n == b.len() || a[n] != b[n]
        }),
{
    lemma_common_prefix_from(a, b, 0);
    let n = common_prefix_len(a, b);
    assert(a.take(n) =~= b.take(n));
}

/// Two keys share the same prefix whichever is named first.
pub proof fn lemma_common_prefix_symmetric(a: Seq<u8>, b: Seq<u8>)
    ensures
        common_prefix_len(a, b) == common_prefix_len(b, a),
{
    lemma_common_prefix_from(a, b, 0);
    lemma_common_prefix_from(b, a, 0);
    let n = common_prefix_len(a, b);
    let m = common_prefix_len(b, a);
    if n < m {
        assert(b[n] == a[n]);
    } else if m < n {
        assert(a[m] == b[m]);
    }
}

/// Of two keys exactly one comes first, unless they are equal.
pub proof fn lemma_key_order_total(a: Seq<u8>, b: Seq<u8>)
    ensures
        key_lt(a, b) || key_lt(b, a) || a == b,
        !(key_lt(a, b) && key_lt(b, a)),
        !key_lt(a, a),
        key_le(a, b) <==> key_lt(a, b) || a == b,
{
    lemma_common_prefix_symmetric(a, b);
    lemma_common_prefix_len(a, b);
    lemma_common_prefix_len(a, a);
    let n = common_prefix_len(a, b);
    if n == a.len() && n == b.len() {
        assert(a.take(n) =~= a);
        assert(b.take(n) =~= b);
    }
    if a == b {
        lemma_common_prefix_from(a, a, 0);
    }
}

/// The order of keys is transitive.
pub proof fn lemma_key_order_transitive(a: Seq<u8>, b: Seq<u8>, c: Seq<u8>)
    requires
        key_lt(a, b),
        key_lt(b, c),
    ensures
        key_lt(a, c),
{
    lemma_common_prefix_from(a, b, 0);
    lemma_common_prefix_from(b, c, 0);
    lemma_common_prefix_from(a, c, 0);
    let ab = common_prefix_len(a, b);
    let bc = common_prefix_len(b, c);
    let ac = common_prefix_len(a, c);
    let least = if ab < bc {
        ab
    } else {
        bc
    };
    assert forall|i: int| 0 <= i < least implies a[i] == c[i] by {
        assert(a[i] == b[i]);
        assert(b[i] == c[i]);
    }
    if ac < least {
        assert(a[ac] == b[ac]);
        assert(b[ac] == c[ac]);
    } else if ac > least {
        assert(a[least] == c[least]);
        if ab < bc {
            assert(b[least] == c[least]);
        } else if bc < ab {
            assert(a[least] == b[least]);
        }
    }
}

/// The number of leading bytes that `a` and `b` share.
pub fn common_prefix(a: &[u8], b: &[u8]) -> (shared: usize)
    ensures
        shared == common_prefix_len(a@, b@),
{
    let mut shared: usize = 0;
    loop
        invariant
            shared <= a@.len(),
            shared <= b@.len(),
            common_prefix_from(a@, b@, shared as int) == common_prefix_len(a@, b@),
        ensures
            shared == common_prefix_len(a@, b@),
        decreases a@.len() - shared,
    {
        if shared >= a.len() || shared >= b.len() {
            break ;
        }
        if a[shared] != b[shared] {
            break ;
        }
        shared += 1;
    }
    shared
}

/// Whether `a` comes before `b` in the order of keys.
pub fn precedes(a: &[u8], b: &[u8]) -> (before: bool)
    ensures
        before == key_lt(a@, b@),
{
    let shared: usize = common_prefix(a, b);
    proof {
        lemma_common_prefix_len(a@, b@);
    }
    shared < b.len() && (shared == a.len() || a[shared] < b[shared])
}

/// Whether `a` and `b` are the same key.
pub fn same_key(a: &[u8], b: &[u8]) -> (same: bool)
    ensures
        same == (a@ == b@),
{
    let shared: usize = common_prefix(a, b);
    proof {
        lemma_common_prefix_len(a@, b@);
        if shared == a@.len() && shared == b@.len() {
            assert(a@.take(shared as int) =~= a@);
            assert(b@.take(shared as int) =~= b@);
        }
        if a@ == b@ {
            lemma_common_prefix_from(a@, a@, 0);
        }
    }
    shared == a.len() && shared == b.len()
}

impl<'a> View for KeySlice<'a> {
    type V = Seq<u8>;

    closed spec fn view(&self) -> Seq<u8> {
        self.0@
    }
}

impl View for KeyVec {
    type V = Seq<u8>;

    closed spec fn view(&self) -> Seq<u8> {
        self.0@
    }
}

impl<'a> KeySlice<'a> {
    /// The key made of the bytes of `slice`.
    pub fn from_slice(slice: &'a [u8]) -> (key: Self)
        ensures
            key@ == slice@,
    {
        KeySlice(slice)
    }

    /// The bytes of the key.
    pub fn raw_ref(self) -> (bytes: &'a [u8])
        ensures
            bytes@ == self@,
    {
        self.0
    }

    /// The number of bytes in the key.
    pub fn len(&self) -> (n: usize)
        ensures
            n == self@.len(),
    {
        self.0.len()
    }

    /// Whether the key has no bytes.
    pub fn is_empty(&self) -> (b: bool)
        ensures
            b == (self@.len() == 0),
    {
        self.0.len() == 0
    }

    /// An owned copy of the key.
    pub fn to_key_vec(self) -> (key: KeyVec)
        ensures
            key@ == self@,
    {
        KeyVec(slice_to_vec(self.0))
    }
}

impl KeyVec {
    /// The empty key.
    pub fn new() -> (key: Self)
        ensures
            key@ == Seq::<u8>::empty(),
    {
        KeyVec(Vec::new())
    }

    /// The key made of the bytes of `bytes`.
    pub fn from_vec(bytes: Vec<u8>) -> (key: Self)
        ensures
            key@ == bytes@,
    {
        KeyVec(bytes)
    }

    /// The bytes of the key.
    pub fn raw_ref(&self) -> (bytes: &[u8])
        ensures
            bytes@ == self@,
    {
        self.0.as_slice()
    }

    /// The key, borrowed.
    pub fn as_key_slice(&self) -> (key: KeySlice<'_>)
        ensures
            key@ == self@,
    {
        KeySlice(self.0.as_slice())
    }

    /// The bytes of the key, given up by it.
    pub fn into_inner(self) -> (bytes: Vec<u8>)
        ensures
            bytes@ == self@,
    {
        self.0
    }

    /// The number of bytes in the key.
    pub fn len(&self) -> (n: usize)
        ensures
            n == self@.len(),
    {
        self.0.len()
    }

    /// Whether the key has no bytes.
    pub fn is_empty(&self) -> (b: bool)
        ensures
            b == (self@.len() == 0),
    {
        self.0.len() == 0
    }
}

} // verus!
