//! Keys of fixed capacity.

use vstd::prelude::*;

verus! {

/// Number of bytes in a key.
pub const KEY_CAPACITY: usize = 32;

/// A key: the raw key text, cut to `KEY_CAPACITY` bytes and padded with zero bytes.
pub type Key = [u8; 32];

/// The key that stands for the key text `raw`: its first `KEY_CAPACITY` bytes, then zero
/// bytes up to that length.
pub open spec fn key_of(raw: Seq<u8>) -> Seq<u8> {
    Seq::new(
        KEY_CAPACITY as nat,
        |i: int|
            if i < raw.len() {
                raw[i]
            } else {
                0u8
            },
    )
}

/// Builds the key for the key text `raw`. A text longer than the capacity is cut.
pub fn make_key(raw: &[u8]) -> (key: Key)
    ensures
        key@ == key_of(raw@),
{
    let mut key: Key = [0u8;32];
    let n: usize = if raw.len() < KEY_CAPACITY {
        raw.len()
    } else {
        KEY_CAPACITY
    };
    let mut i: usize = 0;
    while i < n
        invariant
            i <= n <= KEY_CAPACITY,
            n <= raw@.len(),
            n == raw@.len() || n == KEY_CAPACITY,
            key@.len() == KEY_CAPACITY,
            forall|j: int| 0 <= j < i ==> key@[j] == raw@[j],
            forall|j: int| i <= j < KEY_CAPACITY ==> key@[j] == 0u8,
        decreases n - i,
    {
        key[i] = raw[i];
        i += 1;
    }
    assert(key@ =~= key_of(raw@));
    key
}

} // verus!
