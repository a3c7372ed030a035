//! Versioned keys: a user key together with the timestamp of the write that produced it.
//!
//! Keys are ordered by the user key, byte by byte, and versions of one user key from the newest
//! to the oldest.
use vstd::prelude::*;

verus! {

/// The timestamp that a key without a version of its own carries.
pub const TS_DEFAULT: u64 = 0;

/// The largest timestamp.
pub const TS_MAX: u64 = 0xffff_ffff_ffff_ffff;

/// Lexicographic order on byte strings: a proper prefix comes before its extensions.
pub open spec fn lex_lt(a: Seq<u8>, b: Seq<u8>) -> bool
    decreases a.len(),
{
    if b.len() == 0 {
        false
    } else if a.len() == 0 {
        true
    } else if a[0] == b[0] {
        lex_lt(a.skip(1), b.skip(1))
    } else {
        a[0] < b[0]
    }
}

/// No byte string comes before itself.
pub proof fn lemma_lex_irreflexive(a: Seq<u8>)
    ensures
        !lex_lt(a, a),
    decreases a.len(),
{
    if a.len() > 0 {
        lemma_lex_irreflexive(a.skip(1));
    }
}

/// The order on byte strings is transitive.
pub proof fn lemma_lex_transitive(a: Seq<u8>, b: Seq<u8>, c: Seq<u8>)
    requires
        lex_lt(a, b),
        lex_lt(b, c),
    ensures
        lex_lt(a, c),
    decreases a.len(),
{
    if a.len() > 0 && a[0] == b[0] && b[0] == c[0] {
        lemma_lex_transitive(a.skip(1), b.skip(1), c.skip(1));
    }
}

/// Any two byte strings are equal or one of them comes first.
pub proof fn lemma_lex_total(a: Seq<u8>, b: Seq<u8>)
    ensures
        lex_lt(a, b) || a == b || lex_lt(b, a),
    decreases a.len(),
{
    if a.len() == 0 {
        if b.len() == 0 {
            assert(a =~= b);
        }
    } else if b.len() > 0 && a[0] == b[0] {
        lemma_lex_total(a.skip(1), b.skip(1));
        if a.skip(1) == b.skip(1) {
            assert(a =~= seq![a[0]] + a.skip(1));
            assert(b =~= seq![b[0]] + b.skip(1));
        }
    }
}

/// Whether two byte strings have the same first `n` bytes, and the first string then ends while the
/// second goes on, or goes on with a smaller byte.
pub open spec fn parts_at(a: Seq<u8>, b: Seq<u8>, n: int) -> bool {
    &&& 0 <= n <= a.len()
    &&& n < b.len()
    &&& forall|i: int| 0 <= i < n ==> #[trigger] a[i] == b[i]
    &&& n < a.len() ==> a[n] < b[n]
}

/// A byte string comes before another exactly if, behind what they have in common, it ends or goes
/// on with a smaller byte.
pub proof fn law_lex_order(a: Seq<u8>, b: Seq<u8>)
    ensures
        lex_lt(a, b) <==> exists|n: int| #[trigger] parts_at(a, b, n),
    decreases a.len(),
{
    if a.len() == 0 {
        if b.len() > 0 {
            assert(parts_at(a, b, 0));
        }
    } else if b.len() > 0 {
        let (ra, rb) = (a.skip(1), b.skip(1));
        law_lex_order(ra, rb);
        if a[0] == b[0] {
            if lex_lt(a, b) {
                let n = choose|n: int| #[trigger] parts_at(ra, rb, n);
                assert(parts_at(a, b, n + 1)) by {
                    assert forall|i: int| 0 <= i < n + 1 implies #[trigger] a[i] == b[i] by {
                        if i > 0 {
                            assert(ra[i - 1] == rb[i - 1]);
                        }
                    }
                }
            }
            if exists|n: int| #[trigger] parts_at(a, b, n) {
                let n = choose|n: int| #[trigger] parts_at(a, b, n);
                assert(parts_at(ra, rb, n - 1)) by {
                    assert forall|i: int| 0 <= i < n - 1 implies #[trigger] ra[i] == rb[i] by {
                        assert(a[i + 1] == b[i + 1]);
                    }
                }
            }
        } else {
            if a[0] < b[0] {
                assert(parts_at(a, b, 0));
            }
            if exists|n: int| #[trigger] parts_at(a, b, n) {
                let n = choose|n: int| #[trigger] parts_at(a, b, n);
                if n > 0 {
                    assert(a[0] == b[0]);
                }
            }
        }
    }
}

/// What a key stands for: the user key and the version's timestamp.
#[verifier::ext_equal]
pub struct KeyView {
    pub user: Seq<u8>,
    pub ts: u64,
}

impl KeyView {
    /// Whether `self` comes before `other`: by user key, then newest version first.
    pub open spec fn lt(self, other: KeyView) -> bool {
        lex_lt(self.user, other.user) || (self.user == other.user && self.ts > other.ts)
    }
}

/// The order on versioned keys is strict and total.
pub proof fn lemma_key_total(a: KeyView, b: KeyView)
    ensures
        a.lt(b) || a == b || b.lt(a),
        !a.lt(a),
        a.lt(b) ==> !b.lt(a) && a != b,
{
    lemma_lex_total(a.user, b.user);
    lemma_lex_irreflexive(a.user);
    if a.lt(b) && b.lt(a) {
        if lex_lt(a.user, b.user) {
            if lex_lt(b.user, a.user) {
                lemma_lex_transitive(a.user, b.user, a.user);
            }
        }
        lemma_lex_irreflexive(b.user);
    }
}

/// Versions of one user key come newest first, and otherwise the user keys decide.
pub proof fn law_versions_newest_first(a: KeyView, b: KeyView)
    ensures
        a.user == b.user ==> (a.lt(b) <==> a.ts > b.ts),
        a.user != b.user ==> (a.lt(b) <==> lex_lt(a.user, b.user)),
{
    lemma_lex_irreflexive(a.user);
}

/// The order on versioned keys is transitive.
pub proof fn lemma_key_transitive(a: KeyView, b: KeyView, c: KeyView)
    requires
        a.lt(b),
        b.lt(c),
    ensures
        a.lt(c),
{
    if lex_lt(a.user, b.user) && lex_lt(b.user, c.user) {
        lemma_lex_transitive(a.user, b.user, c.user);
    }
}

/// The outcome of comparing two keys.
#[derive(Clone, Copy, Debug, PartialEq, Eq, Structural)]
pub enum KeyOrder {
    Less,
    Equal,
    Greater,
}

/// Compares two byte strings lexicographically.
pub fn compare_bytes(a: &[u8], b: &[u8]) -> (r: KeyOrder)
    ensures
        r is Less <==> lex_lt(a@, b@),
        r is Equal <==> a@ == b@,
        r is Greater <==> lex_lt(b@, a@),
{
    let mut i: usize = 0;
    assert(a@.skip(0) =~= a@);
    assert(b@.skip(0) =~= b@);
    while i < a.len() && i < b.len() && a[i] == b[i]
        invariant
            i <= a@.len(),
            i <= b@.len(),
            forall|j: int| 0 <= j < i ==> a@[j] == b@[j],
            lex_lt(a@, b@) == lex_lt(a@.skip(i as int), b@.skip(i as int)),
            lex_lt(b@, a@) == lex_lt(b@.skip(i as int), a@.skip(i as int)),
        decreases a@.len() - i,
    {
        assert(a@.skip(i as int).skip(1) =~= a@.skip(i + 1));
        assert(b@.skip(i as int).skip(1) =~= b@.skip(i + 1));
        i = i + 1;
    }
    proof {
        lemma_lex_irreflexive(a@);
        if a@.len() == i && b@.len() == i {
            assert(a@ =~= b@);
        }
    }
    if i < a.len() {
        if i < b.len() {
            if a[i] < b[i] {
                KeyOrder::Less
            } else {
                KeyOrder::Greater
            }
        } else {
            KeyOrder::Greater
        }
    } else if i < b.len() {
        KeyOrder::Less
    } else {
        KeyOrder::Equal
    }
}

/// Copies a byte string.
pub fn copy_bytes(bytes: &[u8]) -> (r: Vec<u8>)
    ensures
        r@ == bytes@,
{
    let mut r: Vec<u8> = Vec::new();
    let mut i: usize = 0;
    while i < bytes.len()
        invariant
            i <= bytes@.len(),
            r@ == bytes@.take(i as int),
        decreases bytes@.len() - i,
    {
        r.push(bytes[i]);
        assert(bytes@.take(i + 1) =~= bytes@.take(i as int).push(bytes@[i as int]));
        i = i + 1;
    }
    assert(bytes@.take(i as int) =~= bytes@);
    r
}

/// A key that runs are sorted by.
pub trait StorageKey {
    /// The key as a value of the specification.
    spec fn model(&self) -> KeyView;

    /// Compares two keys.
    fn compare(&self, other: &Self) -> (r: KeyOrder)
        ensures
            r is Less <==> self.model().lt(other.model()),
            r is Equal <==> self.model() == other.model(),
            r is Greater <==> other.model().lt(self.model()),
    ;
}

/// A user key by itself, as transactions see it.
impl StorageKey for Vec<u8> {
    open spec fn model(&self) -> KeyView {
        KeyView { user: self@, ts: TS_DEFAULT }
    }

    fn compare(&self, other: &Self) -> (r: KeyOrder) {
        proof {
            lemma_key_total(self.model(), other.model());
        }
        compare_bytes(self.as_slice(), other.as_slice())
    }
}

/// A user key with the timestamp of one of its versions.
#[derive(Debug)]
pub struct Key {
    key: Vec<u8>,
    ts: u64,
}

impl View for Key {
    type V = KeyView;

    closed spec fn view(&self) -> KeyView {
        KeyView { user: self.key@, ts: self.ts }
    }
}

impl Key {
    /// The version of `key` that was written at `ts`.
    pub fn new(key: Vec<u8>, ts: u64) -> (r: Key)
        ensures
            r@ == (KeyView { user: key@, ts }),
    {
        Key { key, ts }
    }

    /// The user key.
    pub fn key_ref(&self) -> (r: &[u8])
        ensures
            r@ == self@.user,
    {
        self.key.as_slice()
    }

    /// The timestamp of the version.
    pub fn ts(&self) -> (r: u64)
        ensures
            r == self@.ts,
    {
        self.ts
    }

    /// A second copy of the key.
    pub fn duplicate(&self) -> (r: Key)
        ensures
            r@ == self@,
    {
        Key { key: copy_bytes(self.key.as_slice()), ts: self.ts }
    }
}

impl StorageKey for Key {
    open spec fn model(&self) -> KeyView {
        self@
    }

    fn compare(&self, other: &Self) -> (r: KeyOrder) {
        proof {
            lemma_key_total(self@, other@);
        }
        match compare_bytes(self.key.as_slice(), other.key.as_slice()) {
            KeyOrder::Less => KeyOrder::Less,
            KeyOrder::Greater => KeyOrder::Greater,
            KeyOrder::Equal => if self.ts > other.ts {
                KeyOrder::Less
            } else if self.ts < other.ts {
                KeyOrder::Greater
            } else {
                KeyOrder::Equal
            },
        }
    }
}

} // verus!
