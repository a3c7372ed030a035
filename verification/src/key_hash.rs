//! The hashes by which transactions remember the keys that they read and write.
use vstd::prelude::*;

verus! {

/// The hash that `farmhash::hash32` gives to a byte string.
pub uninterp spec fn farm_hash32(key: Seq<u8>) -> u32;

/// Four bytes of a byte string as a number, the least significant byte first.
pub open spec fn word_at(s: Seq<u8>, at: int) -> int {
    s[at] + 0x100 * s[at + 1] + 0x1_0000 * s[at + 2] + 0x100_0000 * s[at + 3]
}

/// Whether `farmhash::hash32` is defined on a byte string. On strings of 5 to 24 bytes it adds
/// words of the string to its length with plain additions, which panic on overflow where overflow
/// is checked for.
pub open spec fn hashable(key: Seq<u8>) -> bool {
    let len = key.len() as int;
    if 5 <= len <= 12 {
        &&& len + word_at(key, 0) < 0x1_0000_0000
        &&& 5 * len + word_at(key, len - 4) < 0x1_0000_0000
        &&& 9 + word_at(
            key,
            if len >= 8 {
                4
            } else {
                0
            },
        ) < 0x1_0000_0000
    } else if 13 <= len <= 24 {
        (word_at(key, len / 2) * 0xcc9e2d51) % 0x1_0000_0000 + len < 0x1_0000_0000
    } else {
        true
    }
}

/// Calls `farmhash::hash32`: the result depends on the bytes of `key` alone. It is defined where
/// no addition in it overflows.
#[verifier::external_body]
pub(crate) fn hash32(key: &[u8]) -> (r: u32)
    requires
        hashable(key@),
    ensures
        r == farm_hash32(key@),
{
    farmhash::hash32(key)
}

/// Four bytes of a byte string as a number, the least significant byte first.
fn read_word(s: &[u8], at: usize) -> (r: u64)
    requires
        at + 4 <= s@.len(),
    ensures
        r == word_at(s@, at as int),
        r < 0x1_0000_0000,
{
    s[at] as u64 + 0x100 * (s[at + 1] as u64) + 0x1_0000 * (s[at + 2] as u64) + 0x100_0000 * (s[at
        + 3] as u64)
}

/// Whether a key can be hashed without an overflow.
pub fn is_hashable(key: &[u8]) -> (r: bool)
    ensures
        r == hashable(key@),
{
    let n: usize = key.len();
    if n < 5 || n > 24 {
        return true;
    }
    let len: u64 = n as u64;
    if n <= 12 {
        let middle: usize = if n >= 8 {
            4
        } else {
            0
        };
        len + read_word(key, 0) < 0x1_0000_0000 && 5 * len + read_word(key, n - 4) < 0x1_0000_0000
            && 9 + read_word(key, middle) < 0x1_0000_0000
    } else {
        (read_word(key, n / 2) * 0xcc9e2d51) % 0x1_0000_0000 + len < 0x1_0000_0000
    }
}

/// The number that four bytes make, the first of them the least significant.
pub open spec fn little_endian(b0: u8, b1: u8, b2: u8, b3: u8) -> int {
    b0 + 0x100 * (b1 + 0x100 * (b2 + 0x100 * b3))
}

/// Exactly which keys can be hashed. Those of 5 to 12 bytes can if their first four bytes leave
/// room for their length, their last four for five times their length, and four in between, or the
/// first four where the key is shorter than 8 bytes, for nine. Those of 13 to 24 bytes can if what
/// the four bytes from their middle on are scrambled into leaves room for their length. All others
/// can.
pub proof fn law_hashable_exactly(key: Seq<u8>)
    ensures
        5 <= key.len() < 8 ==> (hashable(key) <==> {
            &&& little_endian(key[0], key[1], key[2], key[3]) <= u32::MAX - 9
            &&& little_endian(
                key[key.len() - 4],
                key[key.len() - 3],
                key[key.len() - 2],
                key[key.len() - 1],
            ) <= u32::MAX - 5 * key.len()
        }),
        8 <= key.len() <= 12 ==> (hashable(key) <==> {
            &&& little_endian(key[0], key[1], key[2], key[3]) <= u32::MAX - key.len()
            &&& little_endian(key[4], key[5], key[6], key[7]) <= u32::MAX - 9
            &&& little_endian(
                key[key.len() - 4],
                key[key.len() - 3],
                key[key.len() - 2],
                key[key.len() - 1],
            ) <= u32::MAX - 5 * key.len()
        }),
        13 <= key.len() <= 24 ==> (hashable(key) <==> {
            let at = key.len() as int / 2;
            let middle = little_endian(key[at], key[at + 1], key[at + 2], key[at + 3]);
            0xcc9e2d51 * middle % (u32::MAX + 1) <= u32::MAX - key.len()
        }),
        key.len() < 5 || key.len() > 24 ==> hashable(key),
{
    if 13 <= key.len() <= 24 {
        let at = key.len() as int / 2;
        let word = word_at(key, at);
        assert(word == little_endian(key[at], key[at + 1], key[at + 2], key[at + 3]));
        assert(word * 0xcc9e2d51 == 0xcc9e2d51 * word);
    }
}

/// Most keys can be hashed: short ones and long ones all can, those of up to 12 bytes if they are
/// ASCII, and the others if the four bytes from their middle on are zero.
pub proof fn law_common_keys_can_be_hashed(key: Seq<u8>)
    ensures
        key.len() < 5 ==> hashable(key),
        key.len() > 24 ==> hashable(key),
        key.len() <= 12 && (forall|i: int| 0 <= i < key.len() ==> #[trigger] key[i] < 0x80)
            ==> hashable(key),
        13 <= key.len() <= 24 && (forall|i: int|
            key.len() / 2 <= i < key.len() / 2 + 4 ==> #[trigger] key[i] == 0) ==> hashable(key),
{
    let len = key.len() as int;
    if 13 <= len <= 24 && forall|i: int|
        key.len() / 2 <= i < key.len() / 2 + 4 ==> #[trigger] key[i] == 0 {
        let at = len / 2;
        assert(key[at] == 0 && key[at + 1] == 0 && key[at + 2] == 0 && key[at + 3] == 0);
        assert(word_at(key, at) == 0);
    }
}

} // verus!
