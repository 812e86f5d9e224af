//! Pending edits, keyed by target cell and chunk, in the order they were last
//! written.

use crate::positions::ChunkPosition;
use crate::structures::Modification;
use linked_hash_map::LinkedHashMap;
use linked_hash_set::LinkedHashSet;
use vstd::prelude::*;

verus! {

#[verifier::external_type_specification]
#[verifier::external_body]
#[verifier::reject_recursive_types(K)]
#[verifier::reject_recursive_types(V)]
#[verifier::reject_recursive_types(S)]
pub struct ExLinkedHashMap<K, V, S>(LinkedHashMap<K, V, S>);

/// What a queue of edits holds, oldest entry first: each key is a cell index
/// followed by the target chunk's x, y and z.
pub uninterp spec fn modification_entries(
    map: LinkedHashMap<(usize, i32, i32, i32), Modification>,
) -> Seq<((usize, i32, i32, i32), Modification)>;

/// The key under which an edit of cell `position` in chunk `chunk` is queued.
pub open spec fn edit_key(position: usize, chunk: ChunkPosition) -> (usize, i32, i32, i32) {
    (position, chunk.x, chunk.y, chunk.z)
}

/// The chunk that a key names.
pub open spec fn key_chunk(key: (usize, i32, i32, i32)) -> ChunkPosition {
    ChunkPosition { x: key.1, y: key.2, z: key.3 }
}

/// The entries of `entries` whose key is not `key`, in their order.
pub open spec fn without_key(
    entries: Seq<((usize, i32, i32, i32), Modification)>,
    key: (usize, i32, i32, i32),
) -> Seq<((usize, i32, i32, i32), Modification)>
    decreases entries.len(),
{
    if entries.len() == 0 {
        entries
    } else if entries.last().0 == key {
        without_key(entries.drop_last(), key)
    } else {
        without_key(entries.drop_last(), key).push(entries.last())
    }
}

/// Whether some entry of `entries` has the key `key`.
pub open spec fn has_key(
    entries: Seq<((usize, i32, i32, i32), Modification)>,
    key: (usize, i32, i32, i32),
) -> bool {
    exists|i: int| 0 <= i < entries.len() && (#[trigger] entries[i]).0 == key
}

/// `entries` after `key` was written with `value`: an earlier entry under the
/// key is gone, and the new one is the newest.
pub open spec fn written(
    entries: Seq<((usize, i32, i32, i32), Modification)>,
    key: (usize, i32, i32, i32),
    value: Modification,
) -> Seq<((usize, i32, i32, i32), Modification)> {
    without_key(entries, key).push((key, value))
}

/// What is left without a key is no longer, holds only entries that were
/// there, and none under the key.
pub proof fn lemma_without_key(
    entries: Seq<((usize, i32, i32, i32), Modification)>,
    key: (usize, i32, i32, i32),
)
    ensures
        without_key(entries, key).len() <= entries.len(),
        !has_key(without_key(entries, key), key),
        forall|i: int|
            0 <= i < without_key(entries, key).len() ==> entries.contains(
                #[trigger] without_key(entries, key)[i],
            ),
        !has_key(entries, key) ==> without_key(entries, key) == entries,
    decreases entries.len(),
{
    if entries.len() > 0 {
        let front = entries.drop_last();
        lemma_without_key(front, key);
        let kept = without_key(entries, key);
        assert forall|i: int| 0 <= i < kept.len() implies entries.contains(#[trigger] kept[i]) by {
            if i < without_key(front, key).len() {
                let e = without_key(front, key)[i];
                assert(front.contains(e));
                let j = choose|j: int| 0 <= j < front.len() && front[j] == e;
                assert(entries[j] == e);
            } else {
                assert(entries[entries.len() - 1] == kept[i]);
            }
        }
        if !has_key(entries, key) {
            assert(entries[entries.len() - 1].0 != key);
            assert forall|j: int| 0 <= j < front.len() implies (#[trigger] front[j]).0 != key by {
                assert(entries[j].0 != key);
            }
            assert(without_key(front, key) == front);
            assert(kept =~= entries);
        }
        if has_key(kept, key) {
            let j = choose|j: int| 0 <= j < kept.len() && (#[trigger] kept[j]).0 == key;
            if j < without_key(front, key).len() {
                assert(without_key(front, key)[j].0 == key);
            }
        }
    }
}

/// Whether no two entries have one key.
pub open spec fn keys_distinct(entries: Seq<((usize, i32, i32, i32), Modification)>) -> bool {
    forall|i: int, j: int|
        0 <= i < j < entries.len() ==> (#[trigger] entries[i]).0 != (#[trigger] entries[j]).0
}

/// What is left of distinct keys without one of them is distinct.
pub proof fn lemma_without_key_distinct(
    entries: Seq<((usize, i32, i32, i32), Modification)>,
    key: (usize, i32, i32, i32),
)
    requires
        keys_distinct(entries),
    ensures
        keys_distinct(without_key(entries, key)),
    decreases entries.len(),
{
    if entries.len() > 0 {
        let front = entries.drop_last();
        assert(keys_distinct(front)) by {
            assert forall|i: int, j: int| 0 <= i < j < front.len() implies (#[trigger] front[i]).0 != (
            #[trigger] front[j]).0 by {
                assert(entries[i].0 != entries[j].0);
            }
        }
        lemma_without_key_distinct(front, key);
        lemma_without_key(front, key);
        let kept_front = without_key(front, key);
        let kept = without_key(entries, key);
        if entries.last().0 != key {
            assert forall|i: int, j: int| 0 <= i < j < kept.len() implies (#[trigger] kept[i]).0 != (
            #[trigger] kept[j]).0 by {
                if j < kept_front.len() {
                    assert(kept_front[i].0 != kept_front[j].0);
                } else {
                    assert(front.contains(kept_front[i]));
                    let at = choose|at: int| 0 <= at < front.len() && front[at] == kept_front[i];
                    assert(entries[at].0 != entries[entries.len() - 1].0);
                }
            }
        }
    }
}

/// Writing an entry keeps the keys distinct.
pub proof fn lemma_written_distinct(
    entries: Seq<((usize, i32, i32, i32), Modification)>,
    key: (usize, i32, i32, i32),
    value: Modification,
)
    requires
        keys_distinct(entries),
    ensures
        keys_distinct(written(entries, key, value)),
{
    lemma_without_key_distinct(entries, key);
    lemma_without_key(entries, key);
    let kept = without_key(entries, key);
    let after = written(entries, key, value);
    assert forall|i: int, j: int| 0 <= i < j < after.len() implies (#[trigger] after[i]).0 != (
    #[trigger] after[j]).0 by {
        if j < kept.len() {
            assert(kept[i].0 != kept[j].0);
        } else {
            assert(kept[i].0 != key);
        }
    }
}

/// `LinkedHashMap::new` of `linked_hash_map`: a map without entries.
#[verifier::external_body]
fn map_new() -> (map: LinkedHashMap<(usize, i32, i32, i32), Modification>)
    ensures
        modification_entries(map) == Seq::<((usize, i32, i32, i32), Modification)>::empty(),
{
    LinkedHashMap::new()
}

/// `LinkedHashMap::len` of `linked_hash_map`: the number of entries.
#[verifier::external_body]
fn map_len(map: &LinkedHashMap<(usize, i32, i32, i32), Modification>) -> (n: usize)
    ensures
        n == modification_entries(*map).len(),
{
    map.len()
}

/// `LinkedHashMap::contains_key` of `linked_hash_map`: whether an entry has
/// the key.
#[verifier::external_body]
fn map_contains_key(
    map: &LinkedHashMap<(usize, i32, i32, i32), Modification>,
    key: &(usize, i32, i32, i32),
) -> (found: bool)
    ensures
        found == has_key(modification_entries(*map), *key),
{
    map.contains_key(key)
}

/// `LinkedHashMap::insert` of `linked_hash_map`: the entry under the key, if
/// there was one, is taken out of its place, and the key with the new value
/// becomes the newest entry. The value that was replaced is not handed on.
#[verifier::external_body]
fn map_insert(
    map: &mut LinkedHashMap<(usize, i32, i32, i32), Modification>,
    key: (usize, i32, i32, i32),
    value: Modification,
)
    ensures
        modification_entries(*final(map)) == written(modification_entries(*old(map)), key, value),
{
    map.insert(key, value);
}

/// `LinkedHashMap::pop_back` of `linked_hash_map`: takes out the newest entry
/// and returns it; `None`, and no change, when there is no entry.
#[verifier::external_body]
fn map_pop_back(map: &mut LinkedHashMap<(usize, i32, i32, i32), Modification>) -> (newest: Option<
    ((usize, i32, i32, i32), Modification),
>)
    ensures
        match newest {
            Some(entry) => modification_entries(*old(map)).len() > 0 && entry
                == modification_entries(*old(map)).last() && modification_entries(*final(map))
                == modification_entries(*old(map)).drop_last(),
            None => modification_entries(*old(map)).len() == 0 && modification_entries(*final(map))
                == modification_entries(*old(map)),
        },
{
    map.pop_back()
}

/// Pending edits in the order they were last written, at most one for each
/// cell of each chunk.
pub struct ModificationQueue {
    map: LinkedHashMap<(usize, i32, i32, i32), Modification>,
}

impl View for ModificationQueue {
    type V = Seq<((usize, i32, i32, i32), Modification)>;

    closed spec fn view(&self) -> Seq<((usize, i32, i32, i32), Modification)> {
        modification_entries(self.map)
    }
}

impl ModificationQueue {
    /// A queue without entries.
    pub fn new() -> (queue: Self)
        ensures
            queue@ == Seq::<((usize, i32, i32, i32), Modification)>::empty(),
    {
        ModificationQueue { map: map_new() }
    }

    /// The number of pending edits.
    pub fn len(&self) -> (n: usize)
        ensures
            n == self@.len(),
    {
        map_len(&self.map)
    }

    /// Whether an edit of cell `position` in chunk `chunk` is pending.
    pub fn contains_key(&self, position: usize, chunk: ChunkPosition) -> (found: bool)
        ensures
            found == has_key(self@, edit_key(position, chunk)),
    {
        let key = (position, chunk.x, chunk.y, chunk.z);
        map_contains_key(&self.map, &key)
    }

    /// Queues `modification` for chunk `chunk` as the newest entry, in place
    /// of any edit of the same cell of that chunk.
    pub fn insert(&mut self, chunk: ChunkPosition, modification: Modification)
        ensures
            final(self)@ == written(old(self)@, edit_key(modification.position, chunk), modification),
    {
        map_insert(&mut self.map, (modification.position, chunk.x, chunk.y, chunk.z), modification);
    }

    /// Takes the newest entry out of the queue: the chunk it is for, and the
    /// edit.
    pub fn pop_back(&mut self) -> (newest: Option<(ChunkPosition, Modification)>)
        ensures
            match newest {
                Some(entry) => old(self)@.len() > 0 && entry.0 == key_chunk(old(self)@.last().0)
                    && entry.1 == old(self)@.last().1 && final(self)@ == old(self)@.drop_last(),
                None => old(self)@.len() == 0 && final(self)@ == old(self)@,
            },
    {
        match map_pop_back(&mut self.map) {
            Some((key, modification)) => Some(
                (ChunkPosition { x: key.1, y: key.2, z: key.3 }, modification),
            ),
            None => None,
        }
    }
}

#[verifier::external_type_specification]
#[verifier::external_body]
#[verifier::reject_recursive_types(T)]
#[verifier::reject_recursive_types(S)]
pub struct ExLinkedHashSet<T, S>(LinkedHashSet<T, S>);

/// What a queue of chunks holds, oldest entry first: the x, y and z of each
/// chunk.
pub uninterp spec fn position_entries(set: LinkedHashSet<(i32, i32, i32)>) -> Seq<(i32, i32, i32)>;

/// `LinkedHashSet::new` of `linked_hash_set`: a set without entries.
#[verifier::external_body]
fn set_new() -> (set: LinkedHashSet<(i32, i32, i32)>)
    ensures
        position_entries(set) == Seq::<(i32, i32, i32)>::empty(),
{
    LinkedHashSet::new()
}

/// `LinkedHashSet::len` of `linked_hash_set`: the number of entries.
#[verifier::external_body]
fn set_len(set: &LinkedHashSet<(i32, i32, i32)>) -> (n: usize)
    ensures
        n == position_entries(*set).len(),
{
    set.len()
}

/// `LinkedHashSet::insert_if_absent` of `linked_hash_set`: a value that is
/// not in the set becomes its newest entry, and `true` is returned; one that
/// is in it changes nothing, and `false` is returned.
#[verifier::external_body]
fn set_insert_if_absent(set: &mut LinkedHashSet<(i32, i32, i32)>, value: (i32, i32, i32)) -> (added: bool)
    ensures
        added == !position_entries(*old(set)).contains(value),
        position_entries(*final(set)) == if added {
            position_entries(*old(set)).push(value)
        } else {
            position_entries(*old(set))
        },
{
    set.insert_if_absent(value)
}

/// `LinkedHashSet::insert` of `linked_hash_set`: the value becomes the
/// newest entry, leaving its earlier place if it had one; `true` is returned
/// if it was not in the set.
#[verifier::external_body]
fn set_insert(set: &mut LinkedHashSet<(i32, i32, i32)>, value: (i32, i32, i32)) -> (added: bool)
    ensures
        added == !position_entries(*old(set)).contains(value),
        position_entries(*final(set)) == without_position(position_entries(*old(set)), value).push(
            value,
        ),
{
    set.insert(value)
}

/// `LinkedHashSet::pop_front` of `linked_hash_set`: takes out the oldest
/// entry and returns it; `None`, and no change, when there is no entry.
#[verifier::external_body]
fn set_pop_front(set: &mut LinkedHashSet<(i32, i32, i32)>) -> (oldest: Option<(i32, i32, i32)>)
    ensures
        match oldest {
            Some(value) => position_entries(*old(set)).len() > 0 && value == position_entries(
                *old(set),
            ).first() && position_entries(*final(set)) == position_entries(*old(set)).drop_first(),
            None => position_entries(*old(set)).len() == 0 && position_entries(*final(set))
                == position_entries(*old(set)),
        },
{
    set.pop_front()
}

/// The entries of `entries` other than `value`, in their order.
pub open spec fn without_position(entries: Seq<(i32, i32, i32)>, value: (i32, i32, i32)) -> Seq<
    (i32, i32, i32),
>
    decreases entries.len(),
{
    if entries.len() == 0 {
        entries
    } else if entries.last() == value {
        without_position(entries.drop_last(), value)
    } else {
        without_position(entries.drop_last(), value).push(entries.last())
    }
}

/// What is left without a value holds the other values and not that one.
pub proof fn lemma_without_position(entries: Seq<(i32, i32, i32)>, value: (i32, i32, i32))
    ensures
        forall|other: (i32, i32, i32)|
            #[trigger] without_position(entries, value).contains(other) <==> entries.contains(other)
                && other != value,
    decreases entries.len(),
{
    if entries.len() > 0 {
        let front = entries.drop_last();
        lemma_without_position(front, value);
        let kept = without_position(entries, value);
        assert forall|other: (i32, i32, i32)| #[trigger]
            kept.contains(other) <==> entries.contains(other) && other != value by {
            if kept.contains(other) {
                let i = choose|i: int| 0 <= i < kept.len() && kept[i] == other;
                if i < without_position(front, value).len() {
                    assert(without_position(front, value)[i] == other);
                    assert(without_position(front, value).contains(other));
                    let j = choose|j: int| 0 <= j < front.len() && front[j] == other;
                    assert(entries[j] == other);
                } else {
                    assert(entries[entries.len() - 1] == other);
                }
            }
            if entries.contains(other) && other != value {
                let j = choose|j: int| 0 <= j < entries.len() && entries[j] == other;
                if j < front.len() {
                    assert(front[j] == other);
                    assert(front.contains(other));
                    assert(without_position(front, value).contains(other));
                    let i = choose|i: int|
                        0 <= i < without_position(front, value).len() && without_position(
                            front,
                            value,
                        )[i] == other;
                    assert(kept[i] == other);
                } else {
                    assert(kept[kept.len() - 1] == other);
                }
            }
        }
    }
}

/// What is left of values that are all different is all different.
pub proof fn lemma_without_position_distinct(entries: Seq<(i32, i32, i32)>, value: (i32, i32, i32))
    requires
        entries.no_duplicates(),
    ensures
        without_position(entries, value).no_duplicates(),
        without_position(entries, value).push(value).no_duplicates(),
    decreases entries.len(),
{
    lemma_without_position(entries, value);
    if entries.len() > 0 {
        let front = entries.drop_last();
        assert(front.no_duplicates());
        lemma_without_position_distinct(front, value);
        lemma_without_position(front, value);
        let kept_front = without_position(front, value);
        let kept = without_position(entries, value);
        if entries.last() != value {
            assert forall|i: int, j: int| 0 <= i < kept.len() && 0 <= j < kept.len() && i != j implies kept[i]
                != kept[j] by {
                if i < kept_front.len() && j < kept_front.len() {
                    assert(kept_front[i] != kept_front[j]);
                } else {
                    let inner = if i < j { i } else { j };
                    assert(kept_front.contains(kept_front[inner]));
                    assert(front.contains(kept_front[inner]));
                    let at = choose|at: int| 0 <= at < front.len() && front[at] == kept_front[inner];
                    assert(entries[at] != entries[entries.len() - 1]);
                }
            }
        }
    }
    let kept = without_position(entries, value);
    let after = kept.push(value);
    assert forall|i: int, j: int| 0 <= i < after.len() && 0 <= j < after.len() && i != j implies after[i]
        != after[j] by {
        if i < kept.len() && j < kept.len() {
            assert(kept[i] != kept[j]);
        } else {
            let inner = if i < j { i } else { j };
            assert(kept.contains(kept[inner]));
        }
    }
}

/// A chunk as a queue holds it.
pub open spec fn position_entry(chunk: ChunkPosition) -> (i32, i32, i32) {
    (chunk.x, chunk.y, chunk.z)
}

/// The chunk that an entry of a queue names.
pub open spec fn entry_position(entry: (i32, i32, i32)) -> ChunkPosition {
    ChunkPosition { x: entry.0, y: entry.1, z: entry.2 }
}

/// Chunks that wait for something, each at most once, in the order they came.
pub struct PositionQueue {
    set: LinkedHashSet<(i32, i32, i32)>,
}

impl View for PositionQueue {
    type V = Seq<(i32, i32, i32)>;

    closed spec fn view(&self) -> Seq<(i32, i32, i32)> {
        position_entries(self.set)
    }
}

impl PositionQueue {
    /// A queue without entries.
    pub fn new() -> (queue: Self)
        ensures
            queue@ == Seq::<(i32, i32, i32)>::empty(),
    {
        PositionQueue { set: set_new() }
    }

    /// The number of chunks that wait.
    pub fn len(&self) -> (n: usize)
        ensures
            n == self@.len(),
    {
        set_len(&self.set)
    }

    /// Lets a chunk wait at the end, unless it waits already.
    pub fn insert_if_absent(&mut self, chunk: ChunkPosition) -> (added: bool)
        ensures
            added == !old(self)@.contains(position_entry(chunk)),
            final(self)@ == if added {
                old(self)@.push(position_entry(chunk))
            } else {
                old(self)@
            },
    {
        set_insert_if_absent(&mut self.set, (chunk.x, chunk.y, chunk.z))
    }

    /// Lets a chunk wait at the end, giving up its earlier place if it had
    /// one.
    pub fn insert(&mut self, chunk: ChunkPosition) -> (added: bool)
        ensures
            added == !old(self)@.contains(position_entry(chunk)),
            final(self)@ == without_position(old(self)@, position_entry(chunk)).push(
                position_entry(chunk),
            ),
    {
        set_insert(&mut self.set, (chunk.x, chunk.y, chunk.z))
    }

    /// Takes the chunk that has waited longest.
    pub fn pop_front(&mut self) -> (oldest: Option<ChunkPosition>)
        ensures
            match oldest {
                Some(chunk) => old(self)@.len() > 0 && chunk == entry_position(old(self)@.first())
                    && final(self)@ == old(self)@.drop_first(),
                None => old(self)@.len() == 0 && final(self)@ == old(self)@,
            },
    {
        match set_pop_front(&mut self.set) {
            Some(entry) => Some(ChunkPosition { x: entry.0, y: entry.1, z: entry.2 }),
            None => None,
        }
    }
}

} // verus!
