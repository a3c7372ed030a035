//! The ordered map of byte strings that holds a transaction's own writes.
use crate::iterators::Item;
use crate::key::copy_bytes;
#[allow(unused_imports)]
use crate::key::{lex_lt, KeyView, TS_DEFAULT};
#[allow(unused_imports)]
use crate::runs::{lemma_sorted_same_items, sorted};
use bytes::Bytes;
use crossbeam_skiplist::SkipMap;
use vstd::prelude::*;

verus! {

/// Declares `bytes::Bytes`, the form in which a skip map holds byte strings. Nothing is claimed of
/// it.
#[verifier::external_type_specification]
#[verifier::external_body]
pub struct ExBytes(bytes::Bytes);

/// Declares `crossbeam_skiplist::SkipMap`. What a value of it holds is `skip_map_contents`.
#[verifier::external_type_specification]
#[verifier::external_body]
#[verifier::reject_recursive_types(K)]
#[verifier::reject_recursive_types(V)]
pub struct ExSkipMap<K, V>(crossbeam_skiplist::SkipMap<K, V>);

/// What a skip map holds: the value under each key. A skip map is only ever changed through an
/// exclusive reference here, so this is a property of its value.
pub uninterp spec fn skip_map_contents(map: SkipMap<Bytes, Bytes>) -> Map<Seq<u8>, Seq<u8>>;

/// One end of a range of user keys.
#[derive(Clone, Copy, Debug)]
pub enum KeyBound<'a> {
    /// The range ends with this key.
    Included(&'a [u8]),
    /// The range ends just short of this key.
    Excluded(&'a [u8]),
    /// The range does not end on this side.
    Unbounded,
}

/// One end of a range of user keys, as a value of the specification.
#[verifier::ext_equal]
pub enum BoundView {
    Included(Seq<u8>),
    Excluded(Seq<u8>),
    Unbounded,
}

impl<'a> View for KeyBound<'a> {
    type V = BoundView;

    open spec fn view(&self) -> BoundView {
        match self {
            KeyBound::Included(b) => BoundView::Included(b@),
            KeyBound::Excluded(b) => BoundView::Excluded(b@),
            KeyBound::Unbounded => BoundView::Unbounded,
        }
    }
}

impl<'a> KeyBound<'a> {
    /// Whether a user key is within the range, as far as its lower end says.
    pub open spec fn above(self, user: Seq<u8>) -> bool {
        match self {
            KeyBound::Included(b) => b@ == user || lex_lt(b@, user),
            KeyBound::Excluded(b) => lex_lt(b@, user),
            KeyBound::Unbounded => true,
        }
    }

    /// Whether a user key is within the range, as far as its upper end says.
    pub open spec fn below(self, user: Seq<u8>) -> bool {
        match self {
            KeyBound::Included(b) => user == b@ || lex_lt(user, b@),
            KeyBound::Excluded(b) => lex_lt(user, b@),
            KeyBound::Unbounded => true,
        }
    }
}

/// An upper end of a range of user keys, kept for later.
#[derive(Debug)]
pub enum KeyLimit {
    /// The range ends with this key.
    Included(Vec<u8>),
    /// The range ends just short of this key.
    Excluded(Vec<u8>),
    /// The range does not end.
    Unbounded,
}

impl KeyLimit {
    /// Whether a user key is within the range, as far as this end says.
    pub open spec fn below(self, user: Seq<u8>) -> bool {
        match self {
            KeyLimit::Included(b) => user == b@ || lex_lt(user, b@),
            KeyLimit::Excluded(b) => lex_lt(user, b@),
            KeyLimit::Unbounded => true,
        }
    }

    /// Keeps an upper end.
    pub fn new(upper: KeyBound) -> (r: Self)
        ensures
            forall|user: Seq<u8>| #[trigger] r.below(user) == upper.below(user),
    {
        match upper {
            KeyBound::Included(b) => KeyLimit::Included(copy_bytes(b)),
            KeyBound::Excluded(b) => KeyLimit::Excluded(copy_bytes(b)),
            KeyBound::Unbounded => KeyLimit::Unbounded,
        }
    }

    /// The upper end.
    pub fn bound(&self) -> (r: KeyBound)
        ensures
            forall|user: Seq<u8>| #[trigger] r.below(user) == self.below(user),
    {
        match self {
            KeyLimit::Included(b) => KeyBound::Included(b.as_slice()),
            KeyLimit::Excluded(b) => KeyBound::Excluded(b.as_slice()),
            KeyLimit::Unbounded => KeyBound::Unbounded,
        }
    }
}

/// Pairs of a user key and a value as items of a run.
pub open spec fn pair_items(pairs: Seq<(Vec<u8>, Vec<u8>)>) -> Seq<Item> {
    pairs.map_values(
        |p: (Vec<u8>, Vec<u8>)|
            Item { key: KeyView { user: p.0@, ts: TS_DEFAULT }, value: p.1@ },
    )
}

/// Whether a run lists, in order, what a map holds within a range.
pub open spec fn lists_range(
    run: Seq<Item>,
    map: Map<Seq<u8>, Seq<u8>>,
    lower: KeyBound,
    upper: KeyBound,
) -> bool {
    &&& sorted(run)
    &&& forall|i: int|
        0 <= i < run.len() ==> {
            let item = #[trigger] run[i];
            &&& item.key.ts == TS_DEFAULT
            &&& map.contains_key(item.key.user)
            &&& map[item.key.user] == item.value
            &&& lower.above(item.key.user)
            &&& upper.below(item.key.user)
        }
    &&& forall|user: Seq<u8>| #[trigger]
        map.contains_key(user) && lower.above(user) && upper.below(user) ==> exists|i: int|
            0 <= i < run.len() && (#[trigger] run[i]).key.user == user
}

/// Whether a run lists, in order, what a map holds behind a user key and up to an upper end.
pub open spec fn lists_after(
    run: Seq<Item>,
    map: Map<Seq<u8>, Seq<u8>>,
    user: Seq<u8>,
    upper: KeyLimit,
) -> bool {
    &&& sorted(run)
    &&& forall|i: int|
        0 <= i < run.len() ==> {
            let item = #[trigger] run[i];
            &&& item.key.ts == TS_DEFAULT
            &&& map.contains_key(item.key.user)
            &&& map[item.key.user] == item.value
            &&& lex_lt(user, item.key.user)
            &&& upper.below(item.key.user)
        }
    &&& forall|other: Seq<u8>| #[trigger]
        map.contains_key(other) && lex_lt(user, other) && upper.below(other) ==> exists|i: int|
            0 <= i < run.len() && (#[trigger] run[i]).key.user == other
}

/// What a map holds behind a user key and up to an upper end, as a run in order.
pub open spec fn listing_after(
    map: Map<Seq<u8>, Seq<u8>>,
    user: Seq<u8>,
    upper: KeyLimit,
) -> Seq<Item> {
    choose|run: Seq<Item>| lists_after(run, map, user, upper)
}

/// There is only one way to list what a map holds behind a user key.
pub proof fn lemma_listing_after_unique(
    run: Seq<Item>,
    map: Map<Seq<u8>, Seq<u8>>,
    user: Seq<u8>,
    upper: KeyLimit,
)
    requires
        lists_after(run, map, user, upper),
    ensures
        run == listing_after(map, user, upper),
        lists_after(listing_after(map, user, upper), map, user, upper),
{
    let other = listing_after(map, user, upper);
    assert(lists_after(other, map, user, upper));
    assert forall|x: Item| #[trigger] run.contains(x) implies other.contains(x) by {
        let i = choose|i: int| 0 <= i < run.len() && run[i] == x;
        assert(map.contains_key(run[i].key.user));
        let j = choose|j: int| 0 <= j < other.len() && (#[trigger] other[j]).key.user == x.key.user;
        assert(other[j] == x);
    }
    assert forall|x: Item| #[trigger] other.contains(x) implies run.contains(x) by {
        let i = choose|i: int| 0 <= i < other.len() && other[i] == x;
        assert(map.contains_key(other[i].key.user));
        let j = choose|j: int| 0 <= j < run.len() && (#[trigger] run[j]).key.user == x.key.user;
        assert(run[j] == x);
    }
    lemma_sorted_same_items(run, other);
}

/// What a map holds within a range, as a run in order.
pub open spec fn listing(
    map: Map<Seq<u8>, Seq<u8>>,
    lower: KeyBound,
    upper: KeyBound,
) -> Seq<Item> {
    choose|run: Seq<Item>| lists_range(run, map, lower, upper)
}

/// There is only one way to list what a map holds within a range.
pub proof fn lemma_listing_unique(
    run: Seq<Item>,
    map: Map<Seq<u8>, Seq<u8>>,
    lower: KeyBound,
    upper: KeyBound,
)
    requires
        lists_range(run, map, lower, upper),
    ensures
        run == listing(map, lower, upper),
        lists_range(listing(map, lower, upper), map, lower, upper),
{
    let other = listing(map, lower, upper);
    assert(lists_range(other, map, lower, upper));
    assert forall|x: Item| #[trigger] run.contains(x) implies other.contains(x) by {
        lemma_listed_in_both(run, other, map, lower, upper, x);
    }
    assert forall|x: Item| #[trigger] other.contains(x) implies run.contains(x) by {
        lemma_listed_in_both(other, run, map, lower, upper, x);
    }
    lemma_sorted_same_items(run, other);
}

/// What one listing holds any other listing holds too.
proof fn lemma_listed_in_both(
    run: Seq<Item>,
    other: Seq<Item>,
    map: Map<Seq<u8>, Seq<u8>>,
    lower: KeyBound,
    upper: KeyBound,
    x: Item,
)
    requires
        lists_range(run, map, lower, upper),
        lists_range(other, map, lower, upper),
        run.contains(x),
    ensures
        other.contains(x),
{
    let i = choose|i: int| 0 <= i < run.len() && run[i] == x;
    assert(map.contains_key(run[i].key.user));
    let j = choose|j: int| 0 <= j < other.len() && (#[trigger] other[j]).key.user == x.key.user;
    assert(other[j] == x);
}

/// Calls `SkipMap::new`: the map holds nothing.
#[verifier::external_body]
pub(crate) fn skip_map_new() -> (r: SkipMap<Bytes, Bytes>)
    ensures
        forall|key: Seq<u8>| !skip_map_contents(r).contains_key(key),
{
    SkipMap::new()
}

/// Calls `SkipMap::insert` on copies of `key` and `value`, made by `Bytes::copy_from_slice`: the
/// map then holds `value` under `key`, in place of what it held there before, and is otherwise
/// unchanged.
#[verifier::external_body]
pub(crate) fn skip_map_insert(map: &mut SkipMap<Bytes, Bytes>, key: &[u8], value: &[u8])
    ensures
        skip_map_contents(*final(map)) == skip_map_contents(*old(map)).insert(key@, value@),
{
    map.insert(Bytes::copy_from_slice(key), Bytes::copy_from_slice(value));
}

/// Calls `SkipMap::get`: a copy of what the map holds under `key`, if it holds anything there.
#[verifier::external_body]
pub(crate) fn skip_map_get(map: &SkipMap<Bytes, Bytes>, key: &[u8]) -> (r: Option<Vec<u8>>)
    ensures
        r is Some <==> skip_map_contents(*map).contains_key(key@),
        r matches Some(value) ==> value@ == skip_map_contents(*map)[key@],
{
    map.get(key).map(|entry| entry.value().to_vec())
}

/// Calls `SkipMap::range` and copies what it hands out: what the map holds within the range, by
/// increasing keys. `Bytes` are ordered as byte strings.
#[verifier::external_body]
pub(crate) fn skip_map_range(
    map: &SkipMap<Bytes, Bytes>,
    lower: KeyBound,
    upper: KeyBound,
) -> (r: Vec<(Vec<u8>, Vec<u8>)>)
    ensures
        lists_range(pair_items(r@), skip_map_contents(*map), lower, upper),
{
    let low = match lower {
        KeyBound::Included(b) => std::ops::Bound::Included(b),
        KeyBound::Excluded(b) => std::ops::Bound::Excluded(b),
        KeyBound::Unbounded => std::ops::Bound::Unbounded,
    };
    let high = match upper {
        KeyBound::Included(b) => std::ops::Bound::Included(b),
        KeyBound::Excluded(b) => std::ops::Bound::Excluded(b),
        KeyBound::Unbounded => std::ops::Bound::Unbounded,
    };
    let entries = map.range::<[u8], (std::ops::Bound<&[u8]>, std::ops::Bound<&[u8]>)>((low, high));
    entries.map(|entry| (entry.key().to_vec(), entry.value().to_vec())).collect()
}

/// Calls `SkipMap::iter` and copies what it hands out: all that the map holds, by increasing
/// keys.
#[verifier::external_body]
pub(crate) fn skip_map_entries(map: &SkipMap<Bytes, Bytes>) -> (r: Vec<(Vec<u8>, Vec<u8>)>)
    ensures
        lists_range(
            pair_items(r@),
            skip_map_contents(*map),
            KeyBound::Unbounded,
            KeyBound::Unbounded,
        ),
{
    map.iter().map(|entry| (entry.key().to_vec(), entry.value().to_vec())).collect()
}

} // verus!
