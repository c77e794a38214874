//! The entries of the disc cache ordered from the most to the least recently used one, held as a
//! doubly linked list inside a vector. Each entry is a tile id with the disc space its file
//! occupies; when the total exceeds the budget, the least recently used entries are evicted.

use crate::tile_cache::file_util::TileData;
use crate::tile_cache::fx_maps::{
    distinct_tile_ids, slot_index_contents, tile_size_contents, SlotIndexMap, TileSizeMap,
};
use vstd::prelude::*;

verus! {

/// The slot that a stored link refers to: zero stands for no slot, `k + 1` for slot `k`.
pub open spec fn link(x: u32) -> Option<u32> {
    if x == 0 {
        None
    } else {
        Some((x - 1) as u32)
    }
}

/// Reads a stored link.
fn get_u32(x: u32) -> (r: Option<u32>)
    ensures
        r == link(x),
{
    if x == 0 {
        None
    } else {
        Some(x - 1)
    }
}

/// Stores a link to a slot.
fn set_u32(x: u32) -> (r: u32)
    requires
        x < u32::MAX,
    ensures
        link(r) == Some(x),
{
    x + 1
}

/// Stores an optional link.
fn map_u32(x: Option<u32>) -> (r: u32)
    requires
        x matches Some(v) ==> v < u32::MAX,
    ensures
        link(r) == x,
{
    match x {
        Some(v) => v + 1,
        None => 0,
    }
}

/// The ids of a sequence of entries.
pub open spec fn keys(s: Seq<(u64, u64)>) -> Seq<u64> {
    s.map_values(|e: (u64, u64)| e.0)
}

/// The total disc space of a sequence of entries.
pub open spec fn total_size(s: Seq<(u64, u64)>) -> nat
    decreases s.len(),
{
    if s.len() == 0 {
        0
    } else {
        total_size(s.drop_last()) + s.last().1 as nat
    }
}

/// How many of the most recently used entries stay when the least recently used ones are
/// evicted one by one until the rest fits into the budget.
pub open spec fn kept_len(s: Seq<(u64, u64)>, budget: u64) -> nat
    decreases s.len(),
{
    if s.len() == 0 || total_size(s) <= budget {
        s.len()
    } else {
        kept_len(s.drop_last(), budget)
    }
}

/// The ids that are evicted, least recently used first, until the rest fits into the budget.
pub open spec fn evicted(s: Seq<(u64, u64)>, budget: u64) -> Seq<u64>
    decreases s.len(),
{
    if s.len() == 0 || total_size(s) <= budget {
        Seq::empty()
    } else {
        seq![s.last().0] + evicted(s.drop_last(), budget)
    }
}

/// The position of an id in a sequence of entries.
pub open spec fn key_index(s: Seq<(u64, u64)>, key: u64) -> int {
    choose|i: int| 0 <= i < s.len() && s[i].0 == key
}

/// The links of the slot at position `i` of the order point to its neighbours.
spec fn linked_in(entries: Seq<LruEntry>, ord: Seq<u32>, i: int) -> bool {
    let e = entries[ord[i] as int];
    &&& link(e.previous) == (if i == 0 {
        None
    } else {
        Some(ord[i - 1])
    })
    &&& link(e.next) == (if i + 1 == ord.len() {
        None
    } else {
        Some(ord[i + 1])
    })
}

/// One slot of the list.
#[derive(Clone, Copy)]
struct LruEntry {
    previous: u32,
    next: u32,
    /// The tile id we represent.
    data: u64,
    /// The amount of disc space we occupy.
    disc_space_consumption: u64,
}

/// The least recently used list of the tiles on disc.
pub struct LastRecentlyUsedList {
    /// The slots, used and free.
    entry_list: Vec<LruEntry>,
    /// The stack of free slots.
    open_spaces: Vec<u32>,
    /// The slot of the most recently used entry.
    first_entry: Option<u32>,
    /// The slot of the least recently used entry.
    last_entry: Option<u32>,
    /// Which tile is stored in which slot.
    forward_map: SlotIndexMap,
    /// The accumulated disc space of all entries.
    space_on_disc: u64,
    /// The maximum amount of disc space we may use.
    max_space_on_disc: u64,
    /// The used slots from the most to the least recently used entry.
    order: Ghost<Seq<u32>>,
}

impl View for LastRecentlyUsedList {
    type V = Seq<(u64, u64)>;

    /// The entries as (tile id, disc space), from the most to the least recently used one.
    closed spec fn view(&self) -> Seq<(u64, u64)> {
        Seq::new(
            self.order@.len(),
            |i: int|
                (
                    self.entry_list@[self.order@[i] as int].data,
                    self.entry_list@[self.order@[i] as int].disc_space_consumption,
                ),
        )
    }
}

impl LastRecentlyUsedList {
    /// The disc space budget.
    pub closed spec fn max_space(&self) -> u64 {
        self.max_space_on_disc
    }

    /// The links of the entry at position `i` of the order point to its neighbours.
    spec fn linked(&self, i: int) -> bool {
        linked_in(self.entry_list@, self.order@, i)
    }

    /// The slot holding a tile id.
    spec fn slot_data(&self, slot: u32) -> u64 {
        self.entry_list@[slot as int].data
    }

    /// Everything the structure keeps, but the first entry and the budget.
    spec fn wf_core(&self) -> bool {
        let ord = self.order@;
        let n = self.entry_list@.len();
        let free = self.open_spaces@;
        let index = slot_index_contents(self.forward_map);
        &&& n <= u32::MAX
        &&& ord.no_duplicates()
        &&& forall|i: int| 0 <= i < ord.len() ==> #[trigger] ord[i] < n
        &&& forall|i: int| 0 <= i < ord.len() ==> #[trigger] self.linked(i)
        &&& self.last_entry == (if ord.len() == 0 {
            None
        } else {
            Some(ord.last())
        })
        &&& free.no_duplicates()
        &&& forall|j: int| 0 <= j < free.len() ==> #[trigger] free[j] < n
        &&& forall|j: int| 0 <= j < free.len() ==> !ord.contains(#[trigger] free[j])
        &&& ord.len() + free.len() == n
        &&& forall|i: int|
            0 <= i < ord.len() ==> #[trigger] index.contains_key(self.slot_data(ord[i]))
                && index[self.slot_data(ord[i])] == ord[i]
        &&& forall|k: u64| #[trigger]
            index.contains_key(k) ==> ord.contains(index[k]) && self.slot_data(index[k]) == k
        &&& self.space_on_disc == total_size(self@)
    }

    /// The first entry points to the most recently used slot.
    spec fn first_ok(&self) -> bool {
        self.first_entry == (if self.order@.len() == 0 {
            None
        } else {
            Some(self.order@[0])
        })
    }

    /// Well-formedness without the budget.
    spec fn wf_links(&self) -> bool {
        self.wf_core() && self.first_ok()
    }

    /// No slot is allocated and no tile id is indexed.
    pub closed spec fn is_unallocated(&self) -> bool {
        &&& self.entry_list@.len() == 0
        &&& self.open_spaces@.len() == 0
        &&& slot_index_contents(self.forward_map).dom() == Set::<u64>::empty()
    }

    /// The structure is consistent and within its disc space budget.
    pub closed spec fn wf(&self) -> bool {
        &&& self.wf_links()
        &&& self.space_on_disc <= self.max_space_on_disc
    }
}


/// The total disc space of two sequences one after the other.
pub proof fn lemma_total_size_concat(a: Seq<(u64, u64)>, b: Seq<(u64, u64)>)
    ensures
        total_size(a + b) == total_size(a) + total_size(b),
    decreases b.len(),
{
    if b.len() == 0 {
        assert(a + b =~= a);
    } else {
        lemma_total_size_concat(a, b.drop_last());
        assert((a + b).drop_last() =~= a + b.drop_last());
    }
}

/// A single entry counts its own size.
proof fn lemma_total_size_single(e: (u64, u64))
    ensures
        total_size(seq![e]) == e.1,
{
    assert(seq![e].drop_last() =~= Seq::<(u64, u64)>::empty());
    assert(total_size(Seq::<(u64, u64)>::empty()) == 0);
    assert(seq![e].last() == e);
}

impl LastRecentlyUsedList {
    /// The entry at a position of the view is the payload of the slot at that position.
    proof fn lemma_view_at(&self, i: int)
        requires
            0 <= i < self.order@.len(),
        ensures
            self@.len() == self.order@.len(),
            self@[i] == (
                self.entry_list@[self.order@[i] as int].data,
                self.entry_list@[self.order@[i] as int].disc_space_consumption,
            ),
    {
    }

    /// In a consistent list no tile id occurs twice.
    proof fn lemma_keys_unique(&self)
        requires
            self.wf_core(),
        ensures
            keys(self@).no_duplicates(),
    {
        let ord = self.order@;
        let index = slot_index_contents(self.forward_map);
        assert forall|i: int, j: int|
            0 <= i < keys(self@).len() && 0 <= j < keys(self@).len() && i != j implies keys(
            self@)[i] != keys(self@)[j] by {
            assert(index.contains_key(self.slot_data(ord[i])));
            assert(index.contains_key(self.slot_data(ord[j])));
        }
    }

    /// In a consistent list no tile id occurs twice.
    pub proof fn lemma_wf_keys_unique(&self)
        requires
            self.wf(),
        ensures
            keys(self@).no_duplicates(),
            total_size(self@) <= self.max_space(),
    {
        self.lemma_keys_unique();
    }

    /// Creates an empty list with the given disc space budget.
    pub fn new(max_space_on_disc: u64) -> (r: Self)
        ensures
            r.wf(),
            r.is_unallocated(),
            r@ == Seq::<(u64, u64)>::empty(),
            r.max_space() == max_space_on_disc,
    {
        let r = LastRecentlyUsedList {
            entry_list: Vec::new(),
            open_spaces: Vec::new(),
            first_entry: None,
            last_entry: None,
            forward_map: SlotIndexMap::new(),
            space_on_disc: 0,
            max_space_on_disc,
            order: Ghost(Seq::empty()),
        };
        assert(r@ =~= Seq::<(u64, u64)>::empty());
        r
    }

    /// Removes all entries and keeps the budget.
    pub fn reset(&mut self)
        ensures
            final(self).wf(),
            final(self).is_unallocated(),
            final(self)@ == Seq::<(u64, u64)>::empty(),
            final(self).max_space() == old(self).max_space(),
    {
        *self = LastRecentlyUsedList::new(self.max_space_on_disc);
    }

    /// The accumulated disc space of all entries.
    pub fn space_on_disc(&self) -> (r: u64)
        requires
            self.wf(),
        ensures
            r == total_size(self@),
    {
        self.space_on_disc
    }

    /// Whether the tile id is in the list.
    pub fn contains(&self, data: u64) -> (r: bool)
        requires
            self.wf(),
        ensures
            r == keys(self@).contains(data),
    {
        let found = self.forward_map.get(data);
        proof {
            let ord = self.order@;
            let index = slot_index_contents(self.forward_map);
            if index.contains_key(data) {
                let i = choose|i: int| 0 <= i < ord.len() && ord[i] == index[data];
                self.lemma_view_at(i);
                assert(keys(self@)[i] == data);
            }
            if keys(self@).contains(data) {
                let i = choose|i: int| 0 <= i < keys(self@).len() && keys(self@)[i] == data;
                self.lemma_view_at(i);
                assert(index.contains_key(self.slot_data(ord[i])));
            }
        }
        found.is_some()
    }

    /// The tile ids from the most to the least recently used one, as they are saved.
    pub fn generate_usage_list(&self) -> (r: Vec<u64>)
        requires
            self.wf(),
        ensures
            r@ == keys(self@),
    {
        let ghost ord = self.order@;
        let mut result: Vec<u64> = Vec::new();
        let mut scan = self.first_entry;
        let ghost mut pos: int = 0;
        while scan.is_some()
            invariant
                self.wf(),
                ord == self.order@,
                0 <= pos <= ord.len(),
                scan == (if pos < ord.len() {
                    Some(ord[pos])
                } else {
                    None
                }),
                result@ == keys(self@).take(pos),
            decreases ord.len() - pos,
        {
            let entry = scan.unwrap();
            assert(self.linked(pos));
            proof {
                self.lemma_view_at(pos);
            }
            result.push(self.entry_list[entry as usize].data);
            scan = get_u32(self.entry_list[entry as usize].next);
            proof {
                assert(keys(self@).take(pos + 1) =~= keys(self@).take(pos).push(
                    self.entry_list@[entry as int].data,
                ));
                pos = pos + 1;
            }
        }
        assert(keys(self@).take(pos) =~= keys(self@));
        result
    }
}

/// The payload of every slot is the same in both slot vectors.
spec fn same_payloads(a: Seq<LruEntry>, b: Seq<LruEntry>) -> bool {
    &&& a.len() == b.len()
    &&& forall|k: int|
        0 <= k < a.len() ==> (#[trigger] a[k]).data == b[k].data && a[k].disc_space_consumption
            == b[k].disc_space_consumption
}

impl LastRecentlyUsedList {
    /// The view of a list whose slots kept their payloads, read through an order.
    proof fn lemma_view_from(&self, entries: Seq<LruEntry>, ord: Seq<u32>, v: Seq<(u64, u64)>)
        requires
            same_payloads(self.entry_list@, entries),
            self.order@ == ord,
            v.len() == ord.len(),
            forall|i: int|
                0 <= i < ord.len() ==> #[trigger] v[i] == (
                    entries[ord[i] as int].data,
                    entries[ord[i] as int].disc_space_consumption,
                ),
            forall|i: int| 0 <= i < ord.len() ==> #[trigger] ord[i] < entries.len(),
        ensures
            self@ == v,
    {
        assert forall|i: int| 0 <= i < ord.len() implies #[trigger] self@[i] == v[i] by {
            self.lemma_view_at(i);
            assert(self.entry_list@[ord[i] as int].data == entries[ord[i] as int].data);
        }
        assert(self@ =~= v);
    }

    /// Evicts the least recently used entries until the rest fits into the budget and gives
    /// back their ids, least recently used first.
    #[verifier::rlimit(50)]
    fn fit_in_budget(&mut self) -> (free_list: Vec<u64>)
        requires
            old(self).wf_links(),
        ensures
            final(self).wf(),
            final(self).max_space() == old(self).max_space(),
            final(self)@ == old(self)@.take(kept_len(old(self)@, old(self).max_space()) as int),
            free_list@ == evicted(old(self)@, old(self).max_space()),
    {
        let ghost s0 = self@;
        let ghost budget = self.max_space_on_disc;
        let mut free_list: Vec<u64> = Vec::new();
        assert(s0.take(s0.len() as int) =~= s0);
        assert(free_list@ + evicted(s0, budget) =~= evicted(s0, budget));
        loop
            invariant
                self.wf_core(),
                self.order@.len() > 0 ==> self.first_entry == Some(self.order@[0]),
                self.max_space_on_disc == budget,
                self@.len() <= s0.len(),
                self@ == s0.take(self@.len() as int),
                kept_len(self@, budget) == kept_len(s0, budget),
                free_list@ + evicted(self@, budget) == evicted(s0, budget),
            ensures
                self.last_entry.is_none() || self.space_on_disc <= budget,
            decreases self.order@.len(),
        {
            let scan = match self.last_entry {
                Some(s) => s,
                None => break,
            };
            if self.space_on_disc <= self.max_space_on_disc {
                break;
            }
            let ghost ord = self.order@;
            let ghost entries = self.entry_list@;
            let ghost free = self.open_spaces@;
            let ghost index = slot_index_contents(self.forward_map);
            let ghost v = self@;
            let ghost last = ord.len() - 1;
            proof {
                self.lemma_view_at(last);
                self.lemma_keys_unique();
                assert(self.linked(last));
                assert(v.last() == v[last]);
                assert forall|i: int| 0 <= i < ord.len() implies linked_in(entries, ord, i) by {
                    assert(self.linked(i));
                }
                assert forall|i: int| 0 <= i < ord.len() implies #[trigger] index.contains_key(
                    entries[ord[i] as int].data,
                ) && index[entries[ord[i] as int].data] == ord[i] by {
                    assert(index.contains_key(self.slot_data(ord[i])));
                }
            }
            let ghost fl0 = free_list@;
            let element = self.entry_list[scan as usize];
            let freed_amount = element.disc_space_consumption;
            let content = element.data;
            self.forward_map.remove(content);
            free_list.push(content);
            self.open_spaces.push(scan);
            self.last_entry = get_u32(element.previous);
            if let Some(previous) = self.last_entry {
                let mut e = self.entry_list[previous as usize];
                e.next = 0;
                self.entry_list.set(previous as usize, e);
            }
            self.space_on_disc = self.space_on_disc - freed_amount;
            proof {
                let ord2 = ord.drop_last();
                self.order@ = ord2;
                let v2 = v.drop_last();
                assert(same_payloads(self.entry_list@, entries));
                self.lemma_view_from(entries, ord2, v2);
                // the remaining links
                assert forall|i: int| 0 <= i < ord2.len() implies #[trigger] self.linked(i) by {
                    assert(linked_in(entries, ord, i));
                    if i + 1 < ord2.len() {
                        assert(ord[i] != ord[last - 1]);
                    }
                }
                // the free slots
                assert forall|j: int|
                    0 <= j < self.open_spaces@.len() implies !ord2.contains(
                    #[trigger] self.open_spaces@[j],
                ) by {
                    if j < free.len() {
                        assert(!ord.contains(free[j]));
                        if ord2.contains(free[j]) {
                            let t = choose|t: int| 0 <= t < ord2.len() && ord2[t] == free[j];
                            assert(ord[t] == free[j]);
                        }
                    } else {
                        if ord2.contains(scan) {
                            let t = choose|t: int| 0 <= t < ord2.len() && ord2[t] == scan;
                            assert(ord[t] == ord[last]);
                        }
                    }
                }
                assert(!free.contains(scan)) by {
                    if free.contains(scan) {
                        let j = choose|j: int| 0 <= j < free.len() && free[j] == scan;
                        assert(!ord.contains(free[j]));
                        assert(ord[last] == scan);
                    }
                }
                // the index
                let index2 = slot_index_contents(self.forward_map);
                assert forall|i: int| 0 <= i < ord2.len() implies #[trigger] index2.contains_key(
                    self.slot_data(ord2[i]),
                ) && index2[self.slot_data(ord2[i])] == ord2[i] by {
                    assert(index.contains_key(entries[ord[i] as int].data));
                    assert(keys(v)[i] != keys(v)[last]);
                    assert(entries[ord[i] as int].data == self.slot_data(ord2[i]));
                }
                assert forall|k: u64| #[trigger] index2.contains_key(k) implies ord2.contains(
                    index2[k],
                ) && self.slot_data(index2[k]) == k by {
                    assert(index.contains_key(k));
                    let t = choose|t: int| 0 <= t < ord.len() && ord[t] == index[k];
                    if t == last {
                        assert(k == content);
                    }
                    assert(ord2[t] == index[k]);
                }
                assert(v2 =~= s0.take(v2.len() as int));
                assert(evicted(v, budget) == seq![content] + evicted(v2, budget));
                assert(kept_len(v, budget) == kept_len(v2, budget));
                assert(free_list@ + evicted(v2, budget) =~= fl0 + evicted(v, budget));
            }
        }
        if self.last_entry.is_none() {
            self.first_entry = None;
        }
        proof {
            if self.order@.len() == 0 {
                assert(self@ =~= Seq::<(u64, u64)>::empty());
            }
            assert(free_list@ + evicted(self@, budget) =~= free_list@);
        }
        free_list
    }
}

impl LastRecentlyUsedList {
    /// Puts a new entry in front as the most recently used one, then evicts the least recently
    /// used entries until the list fits into the budget and gives back their ids.
    #[verifier::rlimit(50)]
    pub fn insert_and_clear(&mut self, data: u64, space_on_disc: u64) -> (r: Vec<u64>)
        requires
            old(self).wf(),
            !keys(old(self)@).contains(data),
            total_size(old(self)@) + space_on_disc <= u64::MAX,
            old(self)@.len() + 1 < u32::MAX,
        ensures
            final(self).wf(),
            final(self).max_space() == old(self).max_space(),
            final(self)@ == (seq![(data, space_on_disc)] + old(self)@).take(
                kept_len(seq![(data, space_on_disc)] + old(self)@, old(self).max_space()) as int,
            ),
            r@ == evicted(seq![(data, space_on_disc)] + old(self)@, old(self).max_space()),
    {
        let ghost ord = self.order@;
        let ghost entries = self.entry_list@;
        let ghost free = self.open_spaces@;
        let ghost index = slot_index_contents(self.forward_map);
        let ghost v = self@;
        let ghost n = self.entry_list@.len();
        proof {
            assert forall|i: int| 0 <= i < ord.len() implies linked_in(entries, ord, i) by {
                assert(self.linked(i));
            }
            assert forall|i: int| 0 <= i < ord.len() implies #[trigger] index.contains_key(
                entries[ord[i] as int].data,
            ) && index[entries[ord[i] as int].data] == ord[i] by {
                assert(index.contains_key(self.slot_data(ord[i])));
            }
            assert forall|i: int| 0 <= i < ord.len() implies #[trigger] entries[ord[i] as int].data
                != data by {
                self.lemma_view_at(i);
                assert(keys(v)[i] == entries[ord[i] as int].data);
            }
        }
        self.space_on_disc = self.space_on_disc + space_on_disc;
        let space = match self.open_spaces.pop() {
            Some(n) => n,
            None => {
                self.entry_list.push(
                    LruEntry { previous: 0, next: 0, data: 0, disc_space_consumption: 0 },
                );
                (self.entry_list.len() - 1) as u32
            },
        };
        proof {
            if free.len() > 0 {
                assert(space == free[free.len() - 1]);
                assert(!ord.contains(free[free.len() - 1]));
            } else {
                assert(space == n);
            }
            assert(!ord.contains(space)) by {
                if ord.contains(space) {
                    let t = choose|t: int| 0 <= t < ord.len() && ord[t] == space;
                    assert(ord[t] < n);
                }
            }
        }
        let ghost entries1 = self.entry_list@;
        let mut element = self.entry_list[space as usize];
        element.data = data;
        element.disc_space_consumption = space_on_disc;
        element.previous = 0;
        element.next = map_u32(self.first_entry);
        self.entry_list.set(space as usize, element);
        if let Some(entry) = self.first_entry {
            let mut e = self.entry_list[entry as usize];
            e.previous = set_u32(space);
            self.entry_list.set(entry as usize, e);
        }
        self.first_entry = Some(space);
        if self.last_entry.is_none() {
            self.last_entry = self.first_entry;
        }
        self.forward_map.insert(data, space);
        proof {
            let ord2 = seq![space] + ord;
            self.order@ = ord2;
            let full = seq![(data, space_on_disc)] + v;
            let entries2 = self.entry_list@;
            assert forall|k: int| 0 <= k < n && k != space implies #[trigger] entries2[k].data
                == entries[k].data && entries2[k].disc_space_consumption
                == entries[k].disc_space_consumption by {
                assert(entries1[k] == entries[k]);
            }
            assert forall|i: int| 0 <= i < ord2.len() implies #[trigger] ord2[i] < entries2.len() by {
                if i > 0 {
                    assert(ord2[i] == ord[i - 1]);
                }
            }
            assert forall|i: int| 0 <= i < ord2.len() implies #[trigger] full[i] == (
                entries2[ord2[i] as int].data,
                entries2[ord2[i] as int].disc_space_consumption,
            ) by {
                if i > 0 {
                    assert(ord2[i] == ord[i - 1]);
                    assert(full[i] == v[i - 1]);
                    self.lemma_view_at(i);
                }
            }
            assert(self@ =~= full) by {
                assert forall|i: int| 0 <= i < ord2.len() implies #[trigger] self@[i] == full[i] by {
                    self.lemma_view_at(i);
                }
            }
            assert(ord2.no_duplicates()) by {
                assert forall|i: int, j: int|
                    0 <= i < ord2.len() && 0 <= j < ord2.len() && i != j implies ord2[i]
                    != ord2[j] by {
                    if i > 0 && j > 0 {
                        assert(ord2[i] == ord[i - 1]);
                        assert(ord2[j] == ord[j - 1]);
                    } else if i == 0 {
                        assert(ord2[j] == ord[j - 1]);
                    } else {
                        assert(ord2[i] == ord[i - 1]);
                    }
                }
            }
            assert forall|i: int| 0 <= i < ord2.len() implies #[trigger] self.linked(i) by {
                if i == 0 {
                } else if i == 1 {
                    assert(linked_in(entries, ord, 0));
                    assert(ord2[1] == ord[0]);
                    if ord.len() > 1 {
                        assert(ord2[2] == ord[1]);
                    }
                } else {
                    assert(linked_in(entries, ord, i - 1));
                    assert(ord2[i] == ord[i - 1]);
                    assert(ord2[i - 1] == ord[i - 2]);
                    assert(ord[i - 1] != ord[0]);
                    if i + 1 < ord2.len() {
                        assert(ord2[i + 1] == ord[i]);
                    }
                }
            }
            let free2 = self.open_spaces@;
            assert forall|j: int| 0 <= j < free2.len() implies !ord2.contains(
                #[trigger] free2[j],
            ) && free2[j] < entries2.len() by {
                assert(free2[j] == free[j]);
                assert(!ord.contains(free[j]));
                assert(free[j] != free[free.len() - 1]);
                if ord2.contains(free2[j]) {
                    let t = choose|t: int| 0 <= t < ord2.len() && ord2[t] == free2[j];
                    if t > 0 {
                        assert(ord[t - 1] == free[j]);
                    }
                }
            }
            let index2 = slot_index_contents(self.forward_map);
            assert forall|i: int| 0 <= i < ord2.len() implies #[trigger] index2.contains_key(
                self.slot_data(ord2[i]),
            ) && index2[self.slot_data(ord2[i])] == ord2[i] by {
                if i > 0 {
                    assert(ord2[i] == ord[i - 1]);
                    assert(index.contains_key(entries[ord[i - 1] as int].data));
                    assert(entries[ord[i - 1] as int].data != data);
                }
            }
            assert forall|k: u64| #[trigger] index2.contains_key(k) implies ord2.contains(
                index2[k],
            ) && self.slot_data(index2[k]) == k by {
                if k == data {
                    assert(ord2[0] == space);
                } else {
                    assert(index.contains_key(k));
                    let t = choose|t: int| 0 <= t < ord.len() && ord[t] == index[k];
                    assert(ord2[t + 1] == index[k]);
                }
            }
            lemma_total_size_concat(seq![(data, space_on_disc)], v);
            lemma_total_size_single((data, space_on_disc));
            if ord.len() > 0 {
                assert(ord2.last() == ord.last());
            }
        }
        self.fit_in_budget()
    }
}

impl LastRecentlyUsedList {
    /// Moves the entry of the tile id to the front as the most recently used one; the tile id
    /// must be in the list. Returns whether the order changed, so that the list needs saving:
    /// exactly when the entry was not first already.
    #[verifier::rlimit(50)]
    pub fn touch(&mut self, data: u64) -> (moved: bool)
        requires
            old(self).wf(),
            keys(old(self)@).contains(data),
        ensures
            moved == (old(self)@[0].0 != data),
            final(self).wf(),
            final(self).max_space() == old(self).max_space(),
            final(self)@ == seq![old(self)@[key_index(old(self)@, data)]] + old(self)@.remove(
                key_index(old(self)@, data),
            ),
    {
        let ghost ord = self.order@;
        let ghost entries = self.entry_list@;
        let ghost free = self.open_spaces@;
        let ghost index = slot_index_contents(self.forward_map);
        let ghost v = self@;
        let ghost n = self.entry_list@.len();
        let ghost p = key_index(v, data);
        proof {
            self.lemma_keys_unique();
            assert forall|i: int| 0 <= i < ord.len() implies linked_in(entries, ord, i) by {
                assert(self.linked(i));
            }
            assert(keys(v)[p] == data);
            self.lemma_view_at(p);
            assert(index.contains_key(self.slot_data(ord[p])));
            assert forall|i: int| 0 <= i < ord.len() implies #[trigger] index.contains_key(
                entries[ord[i] as int].data,
            ) && index[entries[ord[i] as int].data] == ord[i] by {
                assert(index.contains_key(self.slot_data(ord[i])));
            }
        }
        let index_slot = self.forward_map.get(data).unwrap();
        assert(index_slot == ord[p]);
        let entry = self.entry_list[index_slot as usize];
        assert(linked_in(entries, ord, p));
        let previous = match get_u32(entry.previous) {
            Some(previous) => previous,
            None => {
                proof {
                    assert(p == 0);
                    assert(v.remove(0) =~= v.drop_first());
                    assert(seq![v[0]] + v.remove(0) =~= v);
                }
                return false;
            },
        };
        assert(p > 0);
        assert(previous == ord[p - 1]);
        // The old first element has now us as the predecessor.
        if let Some(first) = self.first_entry {
            let mut e = self.entry_list[first as usize];
            e.previous = set_u32(index_slot);
            self.entry_list.set(first as usize, e);
        }
        // The old previous now has our next as the follow-up.
        let mut e = self.entry_list[previous as usize];
        e.next = entry.next;
        self.entry_list.set(previous as usize, e);
        // Check if we were the last entry on that list.
        if let Some(next) = get_u32(entry.next) {
            let mut e = self.entry_list[next as usize];
            e.previous = entry.previous;
            self.entry_list.set(next as usize, e);
        } else {
            self.last_entry = Some(previous);
        }
        // Now we have to adjust our pointers.
        let mut e = self.entry_list[index_slot as usize];
        e.previous = 0;
        e.next = map_u32(self.first_entry);
        self.entry_list.set(index_slot as usize, e);
        self.first_entry = Some(index_slot);
        proof {
            let ord2 = seq![index_slot] + ord.remove(p);
            self.order@ = ord2;
            let target = seq![v[p]] + v.remove(p);
            let entries2 = self.entry_list@;
            assert(same_payloads(entries2, entries));
            assert forall|i: int| 0 <= i < ord2.len() implies #[trigger] ord2[i] == (if i == 0 {
                ord[p]
            } else if i <= p {
                ord[i - 1]
            } else {
                ord[i]
            }) by {}
            assert forall|i: int| 0 <= i < ord2.len() implies #[trigger] target[i] == (if i == 0 {
                v[p]
            } else if i <= p {
                v[i - 1]
            } else {
                v[i]
            }) by {}
            assert forall|i: int| 0 <= i < ord2.len() implies #[trigger] ord2[i] < entries.len() by {}
            assert forall|i: int| 0 <= i < ord2.len() implies #[trigger] target[i] == (
                entries[ord2[i] as int].data,
                entries[ord2[i] as int].disc_space_consumption,
            ) by {
                if i == 0 {
                    self.lemma_view_at(p);
                } else if i <= p {
                    self.lemma_view_at(i - 1);
                } else {
                    self.lemma_view_at(i);
                }
            }
            self.lemma_view_from(entries, ord2, target);
            assert(ord2.no_duplicates()) by {
                assert forall|i: int, j: int|
                    0 <= i < ord2.len() && 0 <= j < ord2.len() && i != j implies ord2[i]
                    != ord2[j] by {}
            }
            assert forall|i: int| 0 <= i < ord2.len() implies #[trigger] self.linked(i) by {
                if i == 0 {
                    assert(ord2[1] == ord[0]);
                } else if i == 1 {
                    assert(linked_in(entries, ord, 0));
                    if p == 1 {
                        assert(linked_in(entries, ord, 1));
                    }
                } else if i < p {
                    assert(linked_in(entries, ord, i - 1));
                } else if i == p {
                    assert(linked_in(entries, ord, i - 1));
                    assert(linked_in(entries, ord, p));
                } else if i == p + 1 {
                    assert(linked_in(entries, ord, i));
                    assert(linked_in(entries, ord, p));
                } else {
                    assert(linked_in(entries, ord, i));
                }
            }
            assert forall|x: u32| ord2.contains(x) == ord.contains(x) by {
                if ord.contains(x) {
                    let t = choose|t: int| 0 <= t < ord.len() && ord[t] == x;
                    if t == p {
                        assert(ord2[0] == x);
                    } else if t < p {
                        assert(ord2[t + 1] == x);
                    } else {
                        assert(ord2[t] == x);
                    }
                }
                if ord2.contains(x) {
                    let t = choose|t: int| 0 <= t < ord2.len() && ord2[t] == x;
                    assert(ord.contains(ord2[t]));
                }
            }
            assert forall|j: int| 0 <= j < free.len() implies !ord2.contains(#[trigger] free[j]) by {
                assert(!ord.contains(free[j]));
            }
            assert forall|i: int| 0 <= i < ord2.len() implies #[trigger] index.contains_key(
                self.slot_data(ord2[i]),
            ) && index[self.slot_data(ord2[i])] == ord2[i] by {
                if i == 0 {
                    assert(index.contains_key(entries[ord[p] as int].data));
                } else if i <= p {
                    assert(index.contains_key(entries[ord[i - 1] as int].data));
                } else {
                    assert(index.contains_key(entries[ord[i] as int].data));
                }
            }
            assert forall|k: u64| #[trigger] index.contains_key(k) implies ord2.contains(index[k])
                && self.slot_data(index[k]) == k by {}
            lemma_total_size_concat(seq![v[p]], v.remove(p));
            lemma_total_size_single(v[p]);
            assert(v =~= v.take(p) + seq![v[p]] + v.skip(p + 1));
            assert(v.remove(p) =~= v.take(p) + v.skip(p + 1));
            lemma_total_size_concat(v.take(p), seq![v[p]]);
            lemma_total_size_concat(v.take(p) + seq![v[p]], v.skip(p + 1));
            lemma_total_size_concat(v.take(p), v.skip(p + 1));
            if p + 1 == ord.len() {
                assert(ord2.last() == ord[p - 1]);
            } else {
                assert(ord2.last() == ord.last());
            }
            assert(keys(v)[0] == v[0].0);
        }
        true
    }
}

/// The entries of a saved usage list whose files exist, in the order of the list, each with its
/// disc space, and the files that the list has not named yet. A tile id that the list names
/// twice counts at its first place.
pub open spec fn lru_scan(content: Seq<u64>, avail: Map<u64, u64>) -> (Seq<(u64, u64)>, Map<
    u64,
    u64,
>)
    decreases content.len(),
{
    if content.len() == 0 {
        (Seq::empty(), avail)
    } else {
        let (p, m) = lru_scan(content.drop_last(), avail);
        let x = content.last();
        if m.contains_key(x) {
            (p.push((x, m[x])), m.remove(x))
        } else {
            (p, m)
        }
    }
}

/// The disc space of each tile id of the files on disc.
pub open spec fn tile_sizes(tiles: Seq<TileData>) -> Map<u64, u64> {
    Map::new(
        |k: u64| exists|i: int| 0 <= i < tiles.len() && tiles[i].tile_id == k,
        |k: u64| tiles[choose|i: int| 0 <= i < tiles.len() && tiles[i].tile_id == k].size_on_disc,
    )
}

/// The total disc space of the files on disc.
pub open spec fn sum_sizes(tiles: Seq<TileData>) -> nat
    decreases tiles.len(),
{
    if tiles.len() == 0 {
        0
    } else {
        sum_sizes(tiles.drop_last()) + tiles.last().size_on_disc as nat
    }
}

/// Whether `rest` lists each entry of `m` once, in some order.
pub open spec fn lists_entries(rest: Seq<(u64, u64)>, m: Map<u64, u64>) -> bool {
    &&& keys(rest).no_duplicates()
    &&& keys(rest).to_set() == m.dom()
    &&& forall|i: int| 0 <= i < rest.len() ==> m[#[trigger] rest[i].0] == rest[i].1
}

/// The disc space of the files whose tile id is still in `m`.
spec fn unused_sum(tiles: Seq<TileData>, m: Map<u64, u64>) -> nat
    decreases tiles.len(),
{
    if tiles.len() == 0 {
        0
    } else {
        unused_sum(tiles.drop_last(), m) + (if m.contains_key(tiles.last().tile_id) {
            tiles.last().size_on_disc as nat
        } else {
            0
        })
    }
}

proof fn lemma_sum_prefix_le(s: Seq<TileData>, i: int)
    requires
        0 <= i <= s.len(),
    ensures
        sum_sizes(s.take(i)) <= sum_sizes(s),
    decreases s.len(),
{
    if i == s.len() {
        assert(s.take(i) =~= s);
    } else {
        assert(s.take(i) =~= s.drop_last().take(i));
        lemma_sum_prefix_le(s.drop_last(), i);
    }
}

proof fn lemma_unused_all(s: Seq<TileData>, m: Map<u64, u64>)
    requires
        forall|i: int| 0 <= i < s.len() ==> m.contains_key(#[trigger] s[i].tile_id),
    ensures
        unused_sum(s, m) == sum_sizes(s),
    decreases s.len(),
{
    if s.len() > 0 {
        assert(m.contains_key(s[s.len() - 1].tile_id));
        lemma_unused_all(s.drop_last(), m);
    }
}

proof fn lemma_unused_none(s: Seq<TileData>, m: Map<u64, u64>)
    requires
        forall|i: int| 0 <= i < s.len() ==> !m.contains_key(#[trigger] s[i].tile_id),
    ensures
        unused_sum(s, m) == 0,
    decreases s.len(),
{
    if s.len() > 0 {
        assert(!m.contains_key(s[s.len() - 1].tile_id));
        lemma_unused_none(s.drop_last(), m);
    }
}

proof fn lemma_unused_remove_absent(s: Seq<TileData>, m: Map<u64, u64>, x: u64)
    requires
        forall|i: int| 0 <= i < s.len() ==> #[trigger] s[i].tile_id != x,
    ensures
        unused_sum(s, m.remove(x)) == unused_sum(s, m),
    decreases s.len(),
{
    if s.len() > 0 {
        assert(s[s.len() - 1].tile_id != x);
        lemma_unused_remove_absent(s.drop_last(), m, x);
    }
}

proof fn lemma_unused_remove(s: Seq<TileData>, m: Map<u64, u64>, x: u64, i0: int)
    requires
        distinct_tile_ids(s),
        0 <= i0 < s.len(),
        s[i0].tile_id == x,
        m.contains_key(x),
    ensures
        unused_sum(s, m.remove(x)) + s[i0].size_on_disc == unused_sum(s, m),
    decreases s.len(),
{
    let d = s.drop_last();
    if i0 == s.len() - 1 {
        assert forall|i: int| 0 <= i < d.len() implies #[trigger] d[i].tile_id != x by {
            assert(s[i].tile_id != s[i0].tile_id);
        }
        lemma_unused_remove_absent(d, m, x);
    } else {
        assert(s.last().tile_id != x);
        lemma_unused_remove(d, m, x, i0);
    }
}

proof fn lemma_scan_empty(content: Seq<u64>, avail: Map<u64, u64>)
    requires
        avail.dom() == Set::<u64>::empty(),
    ensures
        lru_scan(content, avail).0 == Seq::<(u64, u64)>::empty(),
        lru_scan(content, avail).1 == avail,
    decreases content.len(),
{
    if content.len() > 0 {
        lemma_scan_empty(content.drop_last(), avail);
        assert(!avail.contains_key(content.last()));
    }
}

/// The tile id map of files with distinct ids has one entry per file.
proof fn lemma_tile_sizes_len(tiles: Seq<TileData>)
    requires
        distinct_tile_ids(tiles),
    ensures
        tile_sizes(tiles).dom().finite(),
        tile_sizes(tiles).len() == tiles.len(),
{
    let ids = tiles.map_values(|t: TileData| t.tile_id);
    assert(ids.no_duplicates()) by {
        assert forall|i: int, j: int|
            0 <= i < ids.len() && 0 <= j < ids.len() && i != j implies ids[i] != ids[j] by {
            assert(ids[i] == tiles[i].tile_id);
            assert(ids[j] == tiles[j].tile_id);
        }
    }
    assert(ids.to_set() =~= tile_sizes(tiles).dom()) by {
        assert forall|k: u64| ids.to_set().contains(k) == tile_sizes(tiles).dom().contains(k) by {
            if tile_sizes(tiles).dom().contains(k) {
                let i = choose|i: int| 0 <= i < tiles.len() && tiles[i].tile_id == k;
                assert(ids[i] == k);
            }
        }
    }
    ids.unique_seq_to_set();
    vstd::seq_lib::seq_to_set_is_finite(ids);
    assert(tile_sizes(tiles).len() == tile_sizes(tiles).dom().len());
}

/// The slot of a rebuilt list: its neighbours are the slots before and after it.
fn get_lru_entry(index: u32, last_element: u32, content: u64, disc_space_consumption: u64) -> (r:
    LruEntry)
    requires
        index <= last_element < u32::MAX,
    ensures
        r.data == content,
        r.disc_space_consumption == disc_space_consumption,
        link(r.previous) == (if index > 0 {
            Some((index - 1) as u32)
        } else {
            None
        }),
        link(r.next) == (if index < last_element {
            Some((index + 1) as u32)
        } else {
            None
        }),
{
    LruEntry {
        previous: if index > 0 {
            set_u32(index - 1)
        } else {
            0
        },
        next: if index < last_element {
            set_u32(index + 1)
        } else {
            0
        },
        data: content,
        disc_space_consumption,
    }
}

/// The (tile id, disc space) pairs of a slot vector.
spec fn payloads(entries: Seq<LruEntry>) -> Seq<(u64, u64)> {
    Seq::new(entries.len(), |j: int| (entries[j].data, entries[j].disc_space_consumption))
}

/// The slots of a rebuilt list so far: slot `j` links to `j - 1` and `j + 1`.
spec fn rebuilt_links(entries: Seq<LruEntry>, last_element: u32) -> bool {
    forall|j: int|
        0 <= j < entries.len() ==> {
            &&& link((#[trigger] entries[j]).previous) == (if j > 0 {
                Some((j - 1) as u32)
            } else {
                None
            })
            &&& link(entries[j].next) == (if j < last_element {
                Some((j + 1) as u32)
            } else {
                None
            })
        }
}

/// The index maps every tile id of the slots to its slot and holds nothing else.
spec fn indexes(index: Map<u64, u32>, entries: Seq<LruEntry>) -> bool {
    &&& forall|j: int|
        0 <= j < entries.len() ==> #[trigger] index.contains_key(entries[j].data) && index[entries[j].data]
            == j
    &&& forall|k: u64| #[trigger]
        index.contains_key(k) ==> index[k] < entries.len() && entries[index[k] as int].data == k
}

/// The entries that a usage list restores, in its order.
pub open spec fn restored(content: Seq<u64>, tiles: Seq<TileData>) -> Seq<(u64, u64)> {
    lru_scan(content, tile_sizes(tiles)).0
}

/// The files that a usage list does not name.
pub open spec fn unlisted(content: Seq<u64>, tiles: Seq<TileData>) -> Map<u64, u64> {
    lru_scan(content, tile_sizes(tiles)).1
}

proof fn lemma_total_size_push(s: Seq<(u64, u64)>, e: (u64, u64))
    ensures
        total_size(s.push(e)) == total_size(s) + e.1,
{
    assert(s.push(e).drop_last() =~= s);
}

proof fn lemma_payloads_push(entries: Seq<LruEntry>, e: LruEntry)
    ensures
        payloads(entries.push(e)) == payloads(entries).push((e.data, e.disc_space_consumption)),
{
    assert(payloads(entries.push(e)) =~= payloads(entries).push((e.data, e.disc_space_consumption)));
}

/// What the rebuilding loops keep of the slots pushed so far and the files still unplaced.
spec fn rebuild_state(
    entries: Seq<LruEntry>,
    index: Map<u64, u32>,
    unplaced: Map<u64, u64>,
    tiles: Seq<TileData>,
    last_element: u32,
) -> bool {
    &&& rebuilt_links(entries, last_element)
    &&& keys(payloads(entries)).no_duplicates()
    &&& forall|j: int| 0 <= j < entries.len() ==> !unplaced.contains_key(#[trigger] entries[j].data)
    &&& indexes(index, entries)
    &&& total_size(payloads(entries)) + unused_sum(tiles, unplaced) == sum_sizes(tiles)
    &&& entries.len() + unplaced.len() == tiles.len()
    &&& unplaced.dom().finite()
    &&& forall|k: u64| #[trigger]
        unplaced.contains_key(k) ==> tile_sizes(tiles).contains_key(k) && unplaced[k] == tile_sizes(
            tiles,
        )[k]
}

/// Placing an unplaced file in the next slot keeps the rebuilding state.
proof fn lemma_rebuild_step(
    entries: Seq<LruEntry>,
    index: Map<u64, u32>,
    unplaced: Map<u64, u64>,
    tiles: Seq<TileData>,
    last_element: u32,
    e: LruEntry,
)
    requires
        rebuild_state(entries, index, unplaced, tiles, last_element),
        distinct_tile_ids(tiles),
        unplaced.contains_key(e.data),
        e.disc_space_consumption == unplaced[e.data],
        entries.len() <= last_element,
        link(e.previous) == (if entries.len() > 0 {
            Some((entries.len() - 1) as u32)
        } else {
            None
        }),
        link(e.next) == (if entries.len() < last_element {
            Some((entries.len() + 1) as u32)
        } else {
            None
        }),
    ensures
        rebuild_state(
            entries.push(e),
            index.insert(e.data, entries.len() as u32),
            unplaced.remove(e.data),
            tiles,
            last_element,
        ),
{
    let x = e.data;
    let entries2 = entries.push(e);
    let index2 = index.insert(x, entries.len() as u32);
    let unplaced2 = unplaced.remove(x);
    lemma_payloads_push(entries, e);
    lemma_total_size_push(payloads(entries), (e.data, e.disc_space_consumption));
    assert(tile_sizes(tiles).contains_key(x));
    let i0 = choose|i: int| 0 <= i < tiles.len() && tiles[i].tile_id == x;
    lemma_unused_remove(tiles, unplaced, x, i0);
    assert(keys(payloads(entries2)).no_duplicates()) by {
        assert forall|a: int, b: int|
            0 <= a < entries2.len() && 0 <= b < entries2.len() && a != b implies keys(
            payloads(entries2),
        )[a] != keys(payloads(entries2))[b] by {
            assert(keys(payloads(entries2))[a] == entries2[a].data);
            assert(keys(payloads(entries2))[b] == entries2[b].data);
            if a < entries.len() && b < entries.len() {
                assert(keys(payloads(entries))[a] == entries[a].data);
                assert(keys(payloads(entries))[b] == entries[b].data);
            }
        }
    }
    assert forall|j: int| 0 <= j < entries2.len() implies !unplaced2.contains_key(
        #[trigger] entries2[j].data,
    ) by {
        if j < entries.len() {
            assert(!unplaced.contains_key(entries[j].data));
        }
    }
    assert forall|j: int| 0 <= j < entries2.len() implies #[trigger] index2.contains_key(
        entries2[j].data,
    ) && index2[entries2[j].data] == j by {
        if j < entries.len() {
            assert(index.contains_key(entries[j].data));
            assert(!unplaced.contains_key(entries[j].data));
        }
    }
    assert forall|k: u64| #[trigger] index2.contains_key(k) implies index2[k] < entries2.len()
        && entries2[index2[k] as int].data == k by {
        if k != x {
            assert(index.contains_key(k));
        }
    }
    assert(rebuilt_links(entries2, last_element)) by {
        assert forall|j: int| 0 <= j < entries2.len() implies {
            &&& link((#[trigger] entries2[j]).previous) == (if j > 0 {
                Some((j - 1) as u32)
            } else {
                None
            })
            &&& link(entries2[j].next) == (if j < last_element {
                Some((j + 1) as u32)
            } else {
                None
            })
        } by {
            if j < entries.len() {
                assert(entries2[j] == entries[j]);
            }
        }
    }
    assert(unplaced2.len() + 1 == unplaced.len());
}

impl LastRecentlyUsedList {
    /// Rebuilds the list from a saved usage list and the files that are on disc. The files that
    /// the usage list names come first, in its order; the files it does not name follow in an
    /// order that the hash map of the lookup decides. Then the least recently used entries are
    /// evicted until the list fits into the budget, and their ids are given back.
    #[verifier::rlimit(50)]
    pub fn reconstruct_from(&mut self, lru_content: &[u64], existing_entries: &[TileData]) -> (r:
        Vec<u64>)
        requires
            old(self).wf(),
            distinct_tile_ids(existing_entries@),
            sum_sizes(existing_entries@) <= u64::MAX,
            existing_entries@.len() <= u32::MAX,
        ensures
            final(self).wf(),
            final(self).max_space() == old(self).max_space(),
            (exists|rest: Seq<(u64, u64)>|
                #[trigger] lists_entries(rest, unlisted(lru_content@, existing_entries@))
                    && final(self)@ == (restored(lru_content@, existing_entries@) + rest).take(
                    kept_len(
                        restored(lru_content@, existing_entries@) + rest,
                        old(self).max_space(),
                    ) as int,
                ) && r@ == evicted(
                    restored(lru_content@, existing_entries@) + rest,
                    old(self).max_space(),
                )),
    {
        self.reset();
        let ghost budget = self.max_space_on_disc;
        let ghost tiles = existing_entries@;
        let ghost avail = tile_sizes(tiles);
        if existing_entries.len() == 0 {
            proof {
                assert(avail.dom() =~= Set::<u64>::empty());
                lemma_scan_empty(lru_content@, avail);
                let rest = Seq::<(u64, u64)>::empty();
                assert(keys(rest).to_set() =~= avail.dom());
                assert(lists_entries(rest, avail));
                assert(restored(lru_content@, tiles) + rest =~= Seq::<(u64, u64)>::empty());
                let full = restored(lru_content@, tiles) + rest;
                assert(full =~= Seq::<(u64, u64)>::empty());
                assert(kept_len(full, budget) == 0);
                assert(self@ =~= full.take(0));
                assert(evicted(full, budget) =~= Seq::<u64>::empty());
                assert(lists_entries(rest, unlisted(lru_content@, tiles)));
            }
            let r = Vec::new();
            assert(r@ =~= Seq::<u64>::empty());
            return r;
        }
        let mut total: u64 = 0;
        let mut i: usize = 0;
        while i < existing_entries.len()
            invariant
                0 <= i <= tiles.len(),
                tiles == existing_entries@,
                total == sum_sizes(tiles.take(i as int)),
                sum_sizes(tiles) <= u64::MAX,
            decreases tiles.len() - i,
        {
            proof {
                assert(tiles.take(i + 1).drop_last() =~= tiles.take(i as int));
                lemma_sum_prefix_le(tiles, i + 1);
            }
            total = total + existing_entries[i].size_on_disc;
            i = i + 1;
        }
        proof {
            assert(tiles.take(i as int) =~= tiles);
        }
        self.space_on_disc = total;
        let total_size = existing_entries.len();
        let last_element = (total_size - 1) as u32;
        let mut sequence_content: Vec<LruEntry> = Vec::with_capacity(total_size);
        let mut look_up = TileSizeMap::from_tiles(existing_entries);
        proof {
            assert(tile_size_contents(look_up) =~= avail) by {
                assert forall|k: u64| #[trigger] tile_size_contents(look_up).contains_key(k)
                    implies tile_size_contents(look_up)[k] == avail[k] by {
                    let i = choose|i: int| 0 <= i < tiles.len() && tiles[i].tile_id == k;
                    assert(tile_size_contents(look_up).contains_key(tiles[i].tile_id));
                }
                assert forall|k: u64| #[trigger] avail.contains_key(k) implies tile_size_contents(
                    look_up,
                ).contains_key(k) by {
                    let i = choose|i: int| 0 <= i < tiles.len() && tiles[i].tile_id == k;
                    assert(tile_size_contents(look_up).contains_key(tiles[i].tile_id));
                }
            }
            lemma_tile_sizes_len(tiles);
            assert forall|i: int| 0 <= i < tiles.len() implies avail.contains_key(
                #[trigger] tiles[i].tile_id,
            ) by {}
            lemma_unused_all(tiles, avail);
            assert(payloads(sequence_content@) =~= Seq::<(u64, u64)>::empty());
            assert(lru_content@.take(0) =~= Seq::<u64>::empty());
            assert(indexes(slot_index_contents(self.forward_map), sequence_content@));
        }
        let mut position_counter: u32 = 0;
        let mut ci: usize = 0;
        while ci < lru_content.len()
            invariant
                0 <= ci <= lru_content@.len(),
                tiles == existing_entries@,
                avail == tile_sizes(tiles),
                distinct_tile_ids(tiles),
                1 <= total_size <= u32::MAX,
                total_size == tiles.len(),
                last_element == total_size - 1,
                position_counter == sequence_content@.len(),
                (payloads(sequence_content@), tile_size_contents(look_up)) == lru_scan(
                    lru_content@.take(ci as int),
                    avail,
                ),
                rebuild_state(
                    sequence_content@,
                    slot_index_contents(self.forward_map),
                    tile_size_contents(look_up),
                    tiles,
                    last_element,
                ),
                self.max_space_on_disc == budget,
                self.open_spaces@.len() == 0,
                self.space_on_disc == sum_sizes(tiles),
            decreases lru_content@.len() - ci,
        {
            let x = lru_content[ci];
            let ghost m = tile_size_contents(look_up);
            let ghost entries = sequence_content@;
            let ghost index = slot_index_contents(self.forward_map);
            let found = look_up.remove(x);
            match found {
                Some(file_size) => {
                    proof {
                        assert(m.dom().contains(x));
                        vstd::set_lib::lemma_set_empty_equivalency_len(m.dom());
                        assert(m.dom().len() > 0) by {
                            if m.dom().len() == 0 {
                                assert(m.dom() == Set::<u64>::empty());
                            }
                        }
                    }
                    let e = get_lru_entry(position_counter, last_element, x, file_size);
                    proof {
                        lemma_rebuild_step(entries, index, m, tiles, last_element, e);
                    }
                    sequence_content.push(e);
                    self.forward_map.insert(x, position_counter);
                    position_counter = position_counter + 1;
                },
                None => {
                    assert(tile_size_contents(look_up) =~= m);
                },
            }
            proof {
                let c2 = lru_content@.take(ci + 1);
                assert(c2.drop_last() =~= lru_content@.take(ci as int));
                assert(c2.last() == x);
                if m.contains_key(x) {
                    lemma_payloads_push(entries, sequence_content@.last());
                    assert(sequence_content@ =~= entries.push(sequence_content@.last()));
                }
            }
            ci = ci + 1;
        }
        proof {
            assert(lru_content@.take(ci as int) =~= lru_content@);
        }
        let ghost p = payloads(sequence_content@);
        let ghost m1 = tile_size_contents(look_up);
        let rest = look_up.into_entries();
        proof {
            keys(rest@).unique_seq_to_set();
        }
        let ghost mut gm = m1;
        let mut ri: usize = 0;
        proof {
            assert(p + rest@.take(0) =~= p);
            assert forall|k: u64| gm.contains_key(k) == (m1.contains_key(k) && !keys(
                rest@.take(0),
            ).contains(k)) by {}
        }
        while ri < rest.len()
            invariant
                0 <= ri <= rest@.len(),
                tiles == existing_entries@,
                avail == tile_sizes(tiles),
                distinct_tile_ids(tiles),
                1 <= total_size <= u32::MAX,
                total_size == tiles.len(),
                last_element == total_size - 1,
                position_counter == sequence_content@.len(),
                keys(rest@).no_duplicates(),
                keys(rest@).to_set() == m1.dom(),
                keys(rest@).len() == m1.len(),
                forall|j: int| 0 <= j < rest@.len() ==> m1[#[trigger] rest@[j].0] == rest@[j].1,
                payloads(sequence_content@) == p + rest@.take(ri as int),
                forall|k: u64|
                    gm.contains_key(k) == (m1.contains_key(k) && !keys(
                        rest@.take(ri as int),
                    ).contains(k)),
                forall|k: u64| #[trigger] gm.contains_key(k) ==> gm[k] == m1[k],
                rebuild_state(
                    sequence_content@,
                    slot_index_contents(self.forward_map),
                    gm,
                    tiles,
                    last_element,
                ),
                self.max_space_on_disc == budget,
                self.open_spaces@.len() == 0,
                self.space_on_disc == sum_sizes(tiles),
            decreases rest@.len() - ri,
        {
            let (data, file_size) = rest[ri];
            let ghost entries = sequence_content@;
            let ghost index = slot_index_contents(self.forward_map);
            proof {
                assert(keys(rest@)[ri as int] == data);
                assert(m1.dom().contains(data));
                assert(!keys(rest@.take(ri as int)).contains(data)) by {
                    if keys(rest@.take(ri as int)).contains(data) {
                        let t = choose|t: int|
                            0 <= t < ri && keys(rest@.take(ri as int))[t] == data;
                        assert(keys(rest@)[t] == data);
                    }
                }
                assert(gm.contains_key(data));
                vstd::set_lib::lemma_set_empty_equivalency_len(gm.dom());
                assert(gm.dom().len() > 0) by {
                    if gm.dom().len() == 0 {
                        assert(gm.dom() == Set::<u64>::empty());
                    }
                }
            }
            let e = get_lru_entry(position_counter, last_element, data, file_size);
            proof {
                lemma_rebuild_step(entries, index, gm, tiles, last_element, e);
            }
            sequence_content.push(e);
            self.forward_map.insert(data, position_counter);
            position_counter = position_counter + 1;
            proof {
                lemma_payloads_push(entries, e);
                assert(rest@.take(ri + 1) =~= rest@.take(ri as int).push((data, file_size)));
                assert(keys(rest@.take(ri + 1)) =~= keys(rest@.take(ri as int)).push(data));
                let old_keys = keys(rest@.take(ri as int));
                let new_keys = keys(rest@.take(ri + 1));
                assert forall|k: u64| new_keys.contains(k) == (old_keys.contains(k) || k == data) by {
                    if k == data {
                        assert(new_keys[ri as int] == data);
                    }
                    if old_keys.contains(k) {
                        let t = choose|t: int| 0 <= t < old_keys.len() && old_keys[t] == k;
                        assert(new_keys[t] == k);
                    }
                    if new_keys.contains(k) {
                        let t = choose|t: int| 0 <= t < new_keys.len() && new_keys[t] == k;
                        if t < ri {
                            assert(old_keys[t] == k);
                        }
                    }
                }
                gm = gm.remove(data);
            }
            ri = ri + 1;
        }
        proof {
            assert(rest@.take(ri as int) =~= rest@);
            assert forall|k: u64| !gm.contains_key(k) by {
                if m1.contains_key(k) {
                    assert(keys(rest@).to_set().contains(k));
                }
            }
            assert forall|i: int| 0 <= i < tiles.len() implies !gm.contains_key(
                #[trigger] tiles[i].tile_id,
            ) by {}
            lemma_unused_none(tiles, gm);
        }
        self.entry_list = sequence_content;
        self.first_entry = Some(0);
        self.last_entry = Some(last_element);
        proof {
            let n = total_size as int;
            let ord = Seq::new(n as nat, |j: int| j as u32);
            self.order@ = ord;
            let entries = self.entry_list@;
            let index = slot_index_contents(self.forward_map);
            assert(entries.len() == n);
            assert forall|i: int| 0 <= i < n implies #[trigger] self@[i] == payloads(entries)[i] by {
                self.lemma_view_at(i);
            }
            assert(self@ =~= payloads(entries));
            assert forall|i: int| 0 <= i < ord.len() implies #[trigger] self.linked(i) by {
                assert(link(entries[i].previous) == (if i > 0 {
                    Some((i - 1) as u32)
                } else {
                    None
                }));
            }
            assert forall|i: int| 0 <= i < ord.len() implies #[trigger] index.contains_key(
                self.slot_data(ord[i]),
            ) && index[self.slot_data(ord[i])] == ord[i] by {
                assert(index.contains_key(entries[i].data));
            }
            assert forall|k: u64| #[trigger] index.contains_key(k) implies ord.contains(index[k])
                && self.slot_data(index[k]) == k by {
                assert(ord[index[k] as int] == index[k]);
            }
            assert(lists_entries(rest@, unlisted(lru_content@, tiles)));
            assert(self@ == restored(lru_content@, tiles) + rest@);
        }
        let r = self.fit_in_budget();
        proof {
            let full = restored(lru_content@, tiles) + rest@;
            assert(lists_entries(rest@, unlisted(lru_content@, tiles)) && self@ == full.take(
                kept_len(full, budget) as int,
            ) && r@ == evicted(full, budget));
        }
        r
    }
}

/// Eviction loses nothing: the ids that stay, followed by the evicted ones from the most
/// recently used on, are all the ids.
pub proof fn lemma_kept_and_evicted(s: Seq<(u64, u64)>, budget: u64)
    ensures
        kept_len(s, budget) <= s.len(),
        keys(s.take(kept_len(s, budget) as int)) + evicted(s, budget).reverse() == keys(s),
    decreases s.len(),
{
    if s.len() == 0 || total_size(s) <= budget {
        assert(s.take(s.len() as int) =~= s);
        assert(evicted(s, budget).reverse() =~= Seq::<u64>::empty());
        assert(keys(s) + Seq::<u64>::empty() =~= keys(s));
    } else {
        let d = s.drop_last();
        lemma_kept_and_evicted(d, budget);
        let k = kept_len(d, budget);
        assert(s.take(k as int) =~= d.take(k as int));
        let e = evicted(d, budget);
        assert((seq![s.last().0] + e).reverse() =~= e.reverse().push(s.last().0));
        assert(keys(s) =~= keys(d).push(s.last().0));
        assert(keys(d.take(k as int)) + e.reverse().push(s.last().0) =~= (keys(d.take(k as int))
            + e.reverse()).push(s.last().0));
    }
}

/// What stays after eviction fits into the budget.
pub proof fn lemma_kept_fits(s: Seq<(u64, u64)>, budget: u64)
    ensures
        total_size(s.take(kept_len(s, budget) as int)) <= budget,
    decreases s.len(),
{
    if s.len() == 0 {
        assert(s.take(0) =~= Seq::<(u64, u64)>::empty());
    } else if total_size(s) <= budget {
        assert(s.take(s.len() as int) =~= s);
    } else {
        let d = s.drop_last();
        lemma_kept_fits(d, budget);
        lemma_kept_and_evicted(d, budget);
        assert(s.take(kept_len(d, budget) as int) =~= d.take(kept_len(d, budget) as int));
    }
}

/// The most recently used entry stays after eviction exactly when it alone fits into the
/// budget.
pub proof fn lemma_first_kept(s: Seq<(u64, u64)>, budget: u64)
    requires
        s.len() > 0,
    ensures
        (kept_len(s, budget) >= 1) == (s[0].1 <= budget),
    decreases s.len(),
{
    lemma_kept_fits(s, budget);
    lemma_kept_and_evicted(s, budget);
    let k = kept_len(s, budget);
    if k >= 1 {
        let t = s.take(k as int);
        assert(t =~= t.take(1) + t.skip(1));
        lemma_total_size_concat(t.take(1), t.skip(1));
        assert(t.take(1) =~= seq![s[0]]);
        lemma_total_size_single(s[0]);
    }
    if s[0].1 <= budget && s.len() > 1 && total_size(s) > budget {
        let d = s.drop_last();
        lemma_first_kept(d, budget);
        assert(d[0] == s[0]);
    }
    if s[0].1 <= budget && s.len() == 1 {
        assert(s =~= seq![s[0]]);
        lemma_total_size_single(s[0]);
    }
}

/// Moving an entry to the front keeps every entry: the list is a permutation of the one before.
pub proof fn lemma_touch_permutes(v: Seq<(u64, u64)>, i: int)
    requires
        0 <= i < v.len(),
    ensures
        (seq![v[i]] + v.remove(i)).to_multiset() == v.to_multiset(),
        total_size(seq![v[i]] + v.remove(i)) == total_size(v),
{
    broadcast use vstd::seq_lib::group_to_multiset_ensures;

    let r = v.remove(i);
    assert(seq![v[i]] + r =~= r.insert(0, v[i]));
    assert(v.to_multiset().count(v[i]) > 0) by {
        assert(v.contains(v[i]));
    }
    assert(r.to_multiset().insert(v[i]) =~= v.to_multiset());
    lemma_total_size_concat(seq![v[i]], r);
    lemma_total_size_single(v[i]);
    assert(v =~= v.take(i) + seq![v[i]] + v.skip(i + 1));
    assert(r =~= v.take(i) + v.skip(i + 1));
    lemma_total_size_concat(v.take(i), seq![v[i]]);
    lemma_total_size_concat(v.take(i) + seq![v[i]], v.skip(i + 1));
    lemma_total_size_concat(v.take(i), v.skip(i + 1));
}

/// The files of a list: each entry as a tile id with its disc space.
pub open spec fn as_tiles(v: Seq<(u64, u64)>) -> Seq<TileData> {
    v.map_values(|e: (u64, u64)| TileData { tile_id: e.0, size_on_disc: e.1 })
}

proof fn lemma_scan_of_own_keys(v: Seq<(u64, u64)>, i: int)
    requires
        keys(v).no_duplicates(),
        0 <= i <= v.len(),
    ensures
        lru_scan(keys(v).take(i), tile_sizes(as_tiles(v))).0 == v.take(i),
        lru_scan(keys(v).take(i), tile_sizes(as_tiles(v))).1 == Map::new(
            |k: u64|
                tile_sizes(as_tiles(v)).contains_key(k) && !keys(v.take(i)).contains(k),
            |k: u64| tile_sizes(as_tiles(v))[k],
        ),
    decreases i,
{
    let avail = tile_sizes(as_tiles(v));
    let tiles = as_tiles(v);
    if i == 0 {
        assert(keys(v).take(0) =~= Seq::<u64>::empty());
        assert(v.take(0) =~= Seq::<(u64, u64)>::empty());
        assert(lru_scan(keys(v).take(0), avail).1 =~= Map::new(
            |k: u64| avail.contains_key(k) && !keys(v.take(0)).contains(k),
            |k: u64| avail[k],
        ));
    } else {
        lemma_scan_of_own_keys(v, i - 1);
        let c = keys(v).take(i);
        assert(c.drop_last() =~= keys(v).take(i - 1));
        let x = v[i - 1].0;
        assert(c.last() == x);
        let m = lru_scan(keys(v).take(i - 1), avail).1;
        assert(tiles[i - 1].tile_id == x);
        assert(avail.contains_key(x));
        assert(!keys(v.take(i - 1)).contains(x)) by {
            let a = keys(v.take(i - 1));
            if a.contains(x) {
                let t = choose|t: int| 0 <= t < a.len() && a[t] == x;
                assert(keys(v)[t] == keys(v)[i - 1]);
            }
        }
        assert(m.contains_key(x));
        let j = choose|j: int| 0 <= j < tiles.len() && tiles[j].tile_id == x;
        assert(keys(v)[j] == keys(v)[i - 1]);
        assert(avail[x] == v[i - 1].1);
        assert(v.take(i) =~= v.take(i - 1).push(v[i - 1]));
        assert(keys(v.take(i)) =~= keys(v.take(i - 1)).push(x));
        assert(m.remove(x) =~= Map::new(
            |k: u64| avail.contains_key(k) && !keys(v.take(i)).contains(k),
            |k: u64| avail[k],
        )) by {
            assert forall|k: u64| keys(v.take(i)).contains(k) == (keys(v.take(i - 1)).contains(k)
                || k == x) by {
                let a = keys(v.take(i - 1));
                let b = keys(v.take(i));
                if b.contains(k) {
                    let t = choose|t: int| 0 <= t < b.len() && b[t] == k;
                    if t < a.len() {
                        assert(a[t] == k);
                    }
                }
                if a.contains(k) {
                    let t = choose|t: int| 0 <= t < a.len() && a[t] == k;
                    assert(b[t] == k);
                }
                if k == x {
                    assert(b[i - 1] == k);
                }
            }
        }
    }
}

/// Saving the usage list of a list within the budget and rebuilding from it, with the same files
/// on disc, gives back the same list and evicts nothing.
pub proof fn lemma_save_restore_round_trip(
    v: Seq<(u64, u64)>,
    budget: u64,
    rest: Seq<(u64, u64)>,
)
    requires
        keys(v).no_duplicates(),
        total_size(v) <= budget,
        lists_entries(rest, unlisted(keys(v), as_tiles(v))),
    ensures
        (restored(keys(v), as_tiles(v)) + rest).take(
            kept_len(restored(keys(v), as_tiles(v)) + rest, budget) as int,
        ) == v,
        evicted(restored(keys(v), as_tiles(v)) + rest, budget) == Seq::<u64>::empty(),
{
    lemma_scan_of_own_keys(v, v.len() as int);
    assert(keys(v).take(v.len() as int) =~= keys(v));
    assert(v.take(v.len() as int) =~= v);
    let avail = tile_sizes(as_tiles(v));
    let m = unlisted(keys(v), as_tiles(v));
    assert(m.dom() =~= Set::<u64>::empty()) by {
        assert forall|k: u64| !m.contains_key(k) by {
            if avail.contains_key(k) {
                let j = choose|j: int| 0 <= j < as_tiles(v).len() && as_tiles(v)[j].tile_id == k;
                assert(keys(v)[j] == k);
            }
        }
    }
    if rest.len() > 0 {
        assert(keys(rest).to_set().contains(keys(rest)[0]));
    }
    assert(rest =~= Seq::<(u64, u64)>::empty());
    let full = restored(keys(v), as_tiles(v)) + rest;
    assert(full =~= v);
    assert(full.take(full.len() as int) =~= full);
}

/// What a scan of a usage list keeps: the entries it restores name distinct files with their
/// disc space, and each file is either restored or still unnamed, never both.
proof fn lemma_scan_parts(content: Seq<u64>, avail: Map<u64, u64>)
    ensures
        keys(lru_scan(content, avail).0).no_duplicates(),
        forall|i: int|
            0 <= i < lru_scan(content, avail).0.len() ==> {
                let e = #[trigger] lru_scan(content, avail).0[i];
                &&& avail.contains_key(e.0)
                &&& avail[e.0] == e.1
                &&& !lru_scan(content, avail).1.contains_key(e.0)
            },
        forall|k: u64| #[trigger]
            lru_scan(content, avail).1.contains_key(k) ==> avail.contains_key(k)
                && lru_scan(content, avail).1[k] == avail[k],
        forall|k: u64|
            #[trigger] avail.contains_key(k) ==> lru_scan(content, avail).1.contains_key(k)
                || keys(lru_scan(content, avail).0).contains(k),
    decreases content.len(),
{
    if content.len() > 0 {
        let d = content.drop_last();
        lemma_scan_parts(d, avail);
        let (p, m) = lru_scan(d, avail);
        let x = content.last();
        if m.contains_key(x) {
            let p2 = p.push((x, m[x]));
            assert(keys(p2) =~= keys(p).push(x));
            assert forall|a: int, b: int|
                0 <= a < keys(p2).len() && 0 <= b < keys(p2).len() && a != b implies keys(p2)[a]
                != keys(p2)[b] by {
                if a < p.len() && b < p.len() {
                    assert(keys(p)[a] == p[a].0);
                    assert(keys(p)[b] == p[b].0);
                } else if a < p.len() {
                    assert(!m.contains_key(p[a].0));
                } else if b < p.len() {
                    assert(!m.contains_key(p[b].0));
                }
            }
            assert forall|i: int| 0 <= i < p2.len() implies {
                let e = #[trigger] p2[i];
                &&& avail.contains_key(e.0)
                &&& avail[e.0] == e.1
                &&& !m.remove(x).contains_key(e.0)
            } by {
                if i < p.len() {
                    assert(p2[i] == p[i]);
                }
            }
            assert forall|k: u64| #[trigger]
                avail.contains_key(k) implies m.remove(x).contains_key(k) || keys(p2).contains(k) by {
                if k == x {
                    assert(keys(p2)[p.len() as int] == x);
                } else if !m.contains_key(k) {
                    let j = choose|j: int| 0 <= j < keys(p).len() && keys(p)[j] == k;
                    assert(keys(p2)[j] == k);
                }
            }
        }
    }
}

/// Rebuilding from a saved usage list lists, before any eviction, every file on disc exactly
/// once with its disc space, whatever the usage list holds: only the order can differ.
pub proof fn lemma_rebuild_lists_files(content: Seq<u64>, tiles: Seq<TileData>, rest: Seq<
    (u64, u64),
>)
    requires
        lists_entries(rest, unlisted(content, tiles)),
    ensures
        lists_entries(restored(content, tiles) + rest, tile_sizes(tiles)),
{
    let avail = tile_sizes(tiles);
    lemma_scan_parts(content, avail);
    let p = restored(content, tiles);
    let m = unlisted(content, tiles);
    let s = p + rest;
    assert(keys(s) =~= keys(p) + keys(rest));
    assert forall|a: int, b: int|
        0 <= a < keys(s).len() && 0 <= b < keys(s).len() && a != b implies keys(s)[a] != keys(
        s,
    )[b] by {
        let pl = p.len() as int;
        if a < pl && b >= pl {
            assert(keys(rest)[b - pl] == rest[b - pl].0);
            assert(keys(rest).to_set().contains(rest[b - pl].0));
            assert(!m.contains_key(p[a].0));
        } else if a >= pl && b < pl {
            assert(keys(rest)[a - pl] == rest[a - pl].0);
            assert(keys(rest).to_set().contains(rest[a - pl].0));
            assert(!m.contains_key(p[b].0));
        } else if a < pl {
            assert(keys(p)[a] == p[a].0);
            assert(keys(p)[b] == p[b].0);
        } else {
            assert(keys(rest)[a - pl] == rest[a - pl].0);
            assert(keys(rest)[b - pl] == rest[b - pl].0);
        }
    }
    assert(keys(s).to_set() =~= avail.dom()) by {
        assert forall|k: u64| keys(s).to_set().contains(k) implies avail.contains_key(k) by {
            let j = choose|j: int| 0 <= j < keys(s).len() && keys(s)[j] == k;
            if j < p.len() {
                assert(p[j] == s[j]);
            } else {
                assert(keys(rest)[j - p.len()] == k);
                assert(keys(rest).to_set().contains(k));
            }
        }
        assert forall|k: u64| avail.contains_key(k) implies keys(s).to_set().contains(k) by {
            if m.contains_key(k) {
                assert(keys(rest).to_set().contains(k));
                let j = choose|j: int| 0 <= j < keys(rest).len() && keys(rest)[j] == k;
                assert(keys(s)[j + p.len()] == k);
            } else {
                let j = choose|j: int| 0 <= j < keys(p).len() && keys(p)[j] == k;
                assert(keys(s)[j] == k);
            }
        }
    }
    assert forall|i: int| 0 <= i < s.len() implies avail[#[trigger] s[i].0] == s[i].1 by {
        if i < p.len() {
            assert(s[i] == p[i]);
        } else {
            let r = rest[i - p.len()];
            assert(s[i] == r);
            assert(keys(rest)[i - p.len()] == r.0);
            assert(keys(rest).to_set().contains(r.0));
        }
    }
}

/// Taking one entry out of a sequence takes its disc space out of the total.
pub proof fn lemma_total_size_remove(v: Seq<(u64, u64)>, p: int)
    requires
        0 <= p < v.len(),
    ensures
        total_size(v.remove(p)) + v[p].1 == total_size(v),
{
    assert(v =~= v.take(p) + seq![v[p]] + v.skip(p + 1));
    assert(v.remove(p) =~= v.take(p) + v.skip(p + 1));
    lemma_total_size_single(v[p]);
    lemma_total_size_concat(v.take(p), seq![v[p]]);
    lemma_total_size_concat(v.take(p) + seq![v[p]], v.skip(p + 1));
    lemma_total_size_concat(v.take(p), v.skip(p + 1));
}

/// The entries with a tile put in front with the given disc space: a tile id that is listed
/// already leaves its old place.
pub open spec fn with_front(s: Seq<(u64, u64)>, id: u64, size: u64) -> Seq<(u64, u64)> {
    if keys(s).contains(id) {
        seq![(id, size)] + s.remove(key_index(s, id))
    } else {
        seq![(id, size)] + s
    }
}

impl LastRecentlyUsedList {
    /// Gives a tile id that is in the list a new disc space and makes it the most recently used
    /// entry, as when its file was written again; then evicts the least recently used entries
    /// until the list fits into the budget and gives back their ids.
    #[verifier::rlimit(50)]
    pub fn refresh(&mut self, data: u64, space_on_disc: u64) -> (r: Vec<u64>)
        requires
            old(self).wf(),
            keys(old(self)@).contains(data),
            total_size(old(self)@.remove(key_index(old(self)@, data))) + space_on_disc <= u64::MAX,
        ensures
            final(self).wf(),
            final(self).max_space() == old(self).max_space(),
            final(self)@ == with_front(old(self)@, data, space_on_disc).take(
                kept_len(with_front(old(self)@, data, space_on_disc), old(self).max_space()) as int,
            ),
            r@ == evicted(with_front(old(self)@, data, space_on_disc), old(self).max_space()),
    {
        let ghost v = self@;
        let ghost p = key_index(v, data);
        let ghost rest = v.remove(p);
        proof {
            let j = choose|j: int| 0 <= j < keys(v).len() && keys(v)[j] == data;
            assert(v[j].0 == data);
            assert(0 <= p < v.len() && v[p].0 == data);
        }
        self.touch(data);
        let ghost v1 = self@;
        let ghost ord = self.order@;
        let ghost entries = self.entry_list@;
        proof {
            assert(v1 == seq![v[p]] + rest);
            assert(v1.len() > 0);
            self.lemma_view_at(0);
            assert(v1 =~= seq![v1[0]] + rest);
            lemma_total_size_concat(seq![v1[0]], rest);
            lemma_total_size_single(v1[0]);
            assert forall|i: int| 0 <= i < ord.len() implies linked_in(entries, ord, i) by {
                assert(self.linked(i));
            }
            let index = slot_index_contents(self.forward_map);
            assert forall|i: int| 0 <= i < ord.len() implies #[trigger] index.contains_key(
                entries[ord[i] as int].data,
            ) && index[entries[ord[i] as int].data] == ord[i] by {
                assert(index.contains_key(self.slot_data(ord[i])));
            }
        }
        let first = self.first_entry.unwrap();
        let mut e = self.entry_list[first as usize];
        let old_size = e.disc_space_consumption;
        e.disc_space_consumption = space_on_disc;
        self.entry_list.set(first as usize, e);
        self.space_on_disc = self.space_on_disc - old_size + space_on_disc;
        proof {
            let target = seq![(data, space_on_disc)] + rest;
            let entries2 = self.entry_list@;
            assert(first == ord[0]);
            assert forall|k: int| 0 <= k < entries.len() implies {
                &&& (#[trigger] entries2[k]).previous == entries[k].previous
                &&& entries2[k].next == entries[k].next
                &&& entries2[k].data == entries[k].data
                &&& (k != first ==> entries2[k].disc_space_consumption
                    == entries[k].disc_space_consumption)
            } by {}
            assert forall|i: int| 0 <= i < ord.len() implies #[trigger] target[i] == (
                entries2[ord[i] as int].data,
                entries2[ord[i] as int].disc_space_consumption,
            ) by {
                if i > 0 {
                    assert(ord[i] != ord[0]);
                    assert(target[i] == v1[i]);
                }
            }
            assert forall|i: int| 0 <= i < ord.len() implies #[trigger] ord[i] < entries2.len() by {}
            self.lemma_view_from(entries2, ord, target);
            assert forall|i: int| 0 <= i < ord.len() implies #[trigger] self.linked(i) by {
                assert(linked_in(entries, ord, i));
            }
            assert forall|i: int| 0 <= i < ord.len() implies #[trigger] slot_index_contents(
                self.forward_map,
            ).contains_key(self.slot_data(ord[i])) && slot_index_contents(self.forward_map)[self.slot_data(
                ord[i],
            )] == ord[i] by {
                assert(entries2[ord[i] as int].data == entries[ord[i] as int].data);
            }
            assert forall|k: u64| #[trigger]
                slot_index_contents(self.forward_map).contains_key(k) implies ord.contains(
                slot_index_contents(self.forward_map)[k],
            ) && self.slot_data(slot_index_contents(self.forward_map)[k]) == k by {
                let t = slot_index_contents(self.forward_map)[k];
                assert(entries2[t as int].data == entries[t as int].data);
            }
            lemma_total_size_concat(seq![(data, space_on_disc)], rest);
            lemma_total_size_single((data, space_on_disc));
            assert(keys(v).contains(data));
            assert(with_front(v, data, space_on_disc) == target);
        }
        self.fit_in_budget()
    }
}

/// Eviction stops as soon as the rest fits: the entries kept are the longest most recently
/// used part within the budget, since one more entry would exceed it.
pub proof fn lemma_kept_longest(s: Seq<(u64, u64)>, budget: u64)
    ensures
        kept_len(s, budget) < s.len() ==> total_size(s.take(kept_len(s, budget) as int + 1))
            > budget,
    decreases s.len(),
{
    if s.len() > 0 && total_size(s) > budget {
        let d = s.drop_last();
        lemma_kept_longest(d, budget);
        lemma_kept_and_evicted(d, budget);
        let k = kept_len(d, budget) as int;
        if k < d.len() {
            assert(s.take(k + 1) =~= d.take(k + 1));
        } else {
            assert(s.take(k + 1) =~= s);
        }
    }
}
} // verus!
