//! The bookkeeping of the tiles that the map widgets look at: which client subscribes to which
//! rectangle, how many subscriptions hold each tile, which tiles have arrived, which requests
//! are outstanding and what the widgets have to be told.

use crate::gui_system::fx_collections::{
    client_set_contents, position_set_contents, region_contents, tile_entry_contents, ClientSet,
    PositionSet, RegionMap, TileEntryMap,
};
use crate::gui_system::math_coordinates::{
    added_tiles, deleted_tiles, lemma_deletion_creation, lemma_filter_step, lemma_filter_unique,
    lemma_positions_hold, lemma_positions_unique, union_defined, BoundingRectangle, TileChange,
    TilePosition,
};
use crate::tile_cache::cache_core::CachingResultMessage;
use crate::tile_cache::text::{push_char, trim, trimmed};
use vstd::prelude::*;

verus! {

/// The key under which a tile position is kept: zoom level, column and row side by side.
pub open spec fn position_key(p: TilePosition) -> u128 {
    ((p.zoom as u128) << 64u128) | ((p.x as u128) << 32u128) | (p.y as u128)
}

/// The tile position that a key stands for.
pub open spec fn key_position(k: u128) -> TilePosition {
    TilePosition {
        x: ((k >> 32u128) & 0xFFFF_FFFFu128) as u32,
        y: (k & 0xFFFF_FFFFu128) as u32,
        zoom: ((k >> 64u128) & 0xFFu128) as u8,
    }
}

/// Each position has its own key.
pub proof fn lemma_position_key_round_trip(p: TilePosition)
    ensures
        key_position(position_key(p)) == p,
{
    let (z, x, y) = (p.zoom, p.x, p.y);
    assert((((((z as u128) << 64u128) | ((x as u128) << 32u128) | (y as u128)) >> 32u128)
        & 0xFFFF_FFFFu128) as u32 == x) by (bit_vector);
    assert(((((z as u128) << 64u128) | ((x as u128) << 32u128) | (y as u128)) & 0xFFFF_FFFFu128)
        as u32 == y) by (bit_vector);
    assert((((((z as u128) << 64u128) | ((x as u128) << 32u128) | (y as u128)) >> 64u128)
        & 0xFFu128) as u8 == z) by (bit_vector);
}

/// The key of a tile position.
pub fn key_of(p: &TilePosition) -> (r: u128)
    ensures
        r == position_key(*p),
{
    (p.zoom as u128) << 64u128 | (p.x as u128) << 32u128 | p.y as u128
}

/// The tile position of a key.
pub fn position_of(k: u128) -> (r: TilePosition)
    ensures
        r == key_position(k),
{
    TilePosition {
        x: ((k >> 32u128) & 0xFFFF_FFFFu128) as u32,
        y: (k & 0xFFFF_FFFFu128) as u32,
        zoom: ((k >> 64u128) & 0xFFu128) as u8,
    }
}

/// The image of a tile if it has arrived, and how many subscriptions hold the tile.
#[derive(Debug)]
pub struct ImageEntry {
    /// The image data, if it has arrived.
    pub image: Option<Vec<u8>>,
    /// How many subscriptions hold the tile.
    pub usage_counter: u32,
}

/// The update messages that can be drained from the system.
#[derive(Clone, Debug)]
pub enum CacheUpdateMessage {
    /// An error of the caching system, with its text.
    ErrorMessage { text: String },
    /// A new tile has arrived that the indicated client is waiting for.
    RelevantTilesArrived { client: u32 },
}

/// A tile to draw for a client: its position and its image data.
#[derive(Debug, Clone)]
pub struct TilesToDraw {
    pub position: TilePosition,
    pub image: Vec<u8>,
}


/// How many subscriptions hold the position.
pub open spec fn holders(regions: Map<u32, BoundingRectangle>, p: TilePosition) -> nat {
    regions.dom().filter(|c: u32| regions[c].holds(p)).len()
}

/// The holders of a position without one client, and with it again.
proof fn lemma_holders_remove(regions: Map<u32, BoundingRectangle>, c: u32, p: TilePosition)
    requires
        regions.dom().finite(),
    ensures
        holders(regions.remove(c), p) + (if regions.contains_key(c) && regions[c].holds(p) {
            1int
        } else {
            0int
        }) == holders(regions, p),
{
    let r2 = regions.remove(c);
    let s = regions.dom().filter(|d: u32| regions[d].holds(p));
    let s2 = r2.dom().filter(|d: u32| r2[d].holds(p));
    regions.dom().lemma_len_filter(|d: u32| regions[d].holds(p));
    r2.dom().lemma_len_filter(|d: u32| r2[d].holds(p));
    if regions.contains_key(c) && regions[c].holds(p) {
        assert(s =~= s2.insert(c));
        assert(!s2.contains(c));
    } else {
        assert(s =~= s2);
    }
}

/// The holders of a position when a client subscribes to a rectangle.
proof fn lemma_holders_insert(
    regions: Map<u32, BoundingRectangle>,
    c: u32,
    area: BoundingRectangle,
    p: TilePosition,
)
    requires
        regions.dom().finite(),
    ensures
        holders(regions.insert(c, area), p) == holders(regions.remove(c), p) + (if area.holds(p) {
            1int
        } else {
            0int
        }),
{
    let r3 = regions.insert(c, area);
    lemma_holders_remove(r3, c, p);
    assert(r3.remove(c) =~= regions.remove(c));
}

/// No more subscriptions hold a position than there are clients.
proof fn lemma_holders_bound(regions: Map<u32, BoundingRectangle>, p: TilePosition)
    requires
        regions.dom().finite(),
    ensures
        holders(regions, p) <= regions.dom().len(),
{
    regions.dom().lemma_len_filter(|d: u32| regions[d].holds(p));
}

/// The bookkeeping of the tiles the clients look at.
pub struct TileCache {
    /// The requests that wait until the core is initialized.
    pending_requests: Vec<TilePosition>,
    /// The image and usage counter of each tile that a subscription holds.
    content_tiles: TileEntryMap,
    /// Which client has subscribed to which rectangle.
    subscription_region: RegionMap,
    /// Whether the core has completed its initialization.
    is_initialized: bool,
    /// The accumulated error text.
    error_msg: String,
    /// The first error of a failed tile.
    tile_error_msg: String,
    /// The clients whose subscription got new tiles.
    client_notifications: ClientSet,
    /// The tiles for which a request is outstanding.
    tiles_in_flight: PositionSet,
}

impl TileCache {
    /// The rectangle of each client.
    pub closed spec fn regions(&self) -> Map<u32, BoundingRectangle> {
        region_contents(self.subscription_region)
    }

    /// The entry of each tile, under its position key.
    pub closed spec fn entries(&self) -> Map<u128, ImageEntry> {
        tile_entry_contents(self.content_tiles)
    }

    /// The position keys of the outstanding requests.
    pub closed spec fn in_flight(&self) -> Set<u128> {
        position_set_contents(self.tiles_in_flight)
    }

    /// The clients to notify.
    pub closed spec fn notified(&self) -> Set<u32> {
        client_set_contents(self.client_notifications)
    }

    /// The requests that wait for the initialization.
    pub closed spec fn pending(&self) -> Seq<TilePosition> {
        self.pending_requests@
    }

    /// Whether the core has completed its initialization.
    pub closed spec fn initialized(&self) -> bool {
        self.is_initialized
    }

    /// The accumulated error text.
    pub closed spec fn error_text(&self) -> Seq<char> {
        self.error_msg@
    }

    /// The first error text of a failed tile.
    pub closed spec fn tile_error_text(&self) -> Seq<char> {
        self.tile_error_msg@
    }

    /// How often the tile is used: its counter, zero without an entry.
    pub open spec fn usage(&self, p: TilePosition) -> nat {
        if self.entries().contains_key(position_key(p)) {
            self.entries()[position_key(p)].usage_counter as nat
        } else {
            0
        }
    }

    /// Each tile that a subscription holds has an entry whose counter is the number of
    /// subscriptions that hold it, and no other tile has one.
    pub open spec fn wf(&self) -> bool {
        &&& self.regions().dom().finite()
        &&& self.regions().dom().len() < u32::MAX
        &&& forall|c: u32| #[trigger] self.regions().contains_key(c) ==> self.regions()[c].fits()
        &&& forall|k: u128| #[trigger]
            self.entries().contains_key(k) ==> k == position_key(key_position(k))
                && self.entries()[k].usage_counter >= 1
        &&& forall|p: TilePosition| #[trigger] self.usage(p) == holders(self.regions(), p)
    }

    /// An empty bookkeeping; the core is not initialized yet.
    pub fn new() -> (r: Self)
        ensures
            r.wf(),
            r.regions().dom() == Set::<u32>::empty(),
            r.entries().dom() == Set::<u128>::empty(),
            r.in_flight() == Set::<u128>::empty(),
            r.notified() == Set::<u32>::empty(),
            r.pending() == Seq::<TilePosition>::empty(),
            !r.initialized(),
            r.error_text() == Seq::<char>::empty(),
            r.tile_error_text() == Seq::<char>::empty(),
    {
        let r = TileCache {
            pending_requests: Vec::new(),
            content_tiles: TileEntryMap::new(),
            subscription_region: RegionMap::new(),
            is_initialized: false,
            error_msg: String::new(),
            tile_error_msg: String::new(),
            client_notifications: ClientSet::new(),
            tiles_in_flight: PositionSet::new(),
        };
        proof {
            assert forall|p: TilePosition| #[trigger] r.usage(p) == holders(r.regions(), p) by {
                assert(r.regions().dom().filter(|c: u32| r.regions()[c].holds(p)) =~= Set::<
                    u32,
                >::empty());
            }
        }
        r
    }

    /// Someone stops using a tile: its counter goes down, and at zero the entry goes.
    fn decrement_usage(&mut self, position: &TilePosition)
        ensures
            final(self).entries() == (if !old(self).entries().contains_key(position_key(*position)) {
                old(self).entries()
            } else if old(self).entries()[position_key(*position)].usage_counter <= 1 {
                old(self).entries().remove(position_key(*position))
            } else {
                old(self).entries().insert(
                    position_key(*position),
                    ImageEntry {
                        image: old(self).entries()[position_key(*position)].image,
                        usage_counter: (old(self).entries()[position_key(
                            *position,
                        )].usage_counter - 1) as u32,
                    },
                )
            }),
            final(self).regions() == old(self).regions(),
            final(self).in_flight() == old(self).in_flight(),
            final(self).notified() == old(self).notified(),
            final(self).pending() == old(self).pending(),
            final(self).initialized() == old(self).initialized(),
            final(self).error_text() == old(self).error_text(),
            final(self).tile_error_text() == old(self).tile_error_text(),
    {
        let key = key_of(position);
        let ghost before = old(self).entries();
        let entry = match self.content_tiles.remove(key) {
            Some(entry) => entry,
            None => {
                assert(self.entries() =~= before);
                return;
            },
        };
        let usage_counter = entry.usage_counter.saturating_sub(1);
        if usage_counter != 0 {
            self.content_tiles.insert(key, ImageEntry { image: entry.image, usage_counter });
            assert(self.entries() =~= before.insert(key, ImageEntry { image: before[key].image, usage_counter }));
        }
    }

    /// Someone starts using a tile: its counter goes up; a new tile gets an entry without an
    /// image and is requested, unless a request for it is outstanding. Before the core is
    /// initialized the request waits; else it is given back to be made.
    fn increment_usage(&mut self, position: &TilePosition) -> (request: Option<TilePosition>)
        requires
            old(self).entries().contains_key(position_key(*position)) ==> old(self).entries()[position_key(
                *position,
            )].usage_counter < u32::MAX,
        ensures
            old(self).entries().contains_key(position_key(*position)) ==> {
                &&& final(self).entries() == old(self).entries().insert(
                    position_key(*position),
                    ImageEntry {
                        image: old(self).entries()[position_key(*position)].image,
                        usage_counter: (old(self).entries()[position_key(
                            *position,
                        )].usage_counter + 1) as u32,
                    },
                )
                &&& final(self).in_flight() == old(self).in_flight()
                &&& final(self).pending() == old(self).pending()
                &&& request is None
            },
            !old(self).entries().contains_key(position_key(*position)) ==> {
                &&& final(self).entries() == old(self).entries().insert(
                    position_key(*position),
                    ImageEntry { image: None, usage_counter: 1 },
                )
                &&& final(self).in_flight() == old(self).in_flight().insert(position_key(*position))
                &&& if old(self).in_flight().contains(position_key(*position)) {
                    final(self).pending() == old(self).pending() && request is None
                } else if old(self).initialized() {
                    final(self).pending() == old(self).pending() && request == Some(*position)
                } else {
                    final(self).pending() == old(self).pending().push(*position) && request is None
                }
            },
            final(self).regions() == old(self).regions(),
            final(self).notified() == old(self).notified(),
            final(self).initialized() == old(self).initialized(),
            final(self).error_text() == old(self).error_text(),
            final(self).tile_error_text() == old(self).tile_error_text(),
    {
        let key = key_of(position);
        let ghost before = old(self).entries();
        match self.content_tiles.remove(key) {
            Some(entry) => {
                self.content_tiles.insert(
                    key,
                    ImageEntry { image: entry.image, usage_counter: entry.usage_counter + 1 },
                );
                assert(self.entries() =~= before.insert(
                    key,
                    ImageEntry { image: before[key].image, usage_counter: (before[key].usage_counter + 1) as u32 },
                ));
                None
            },
            None => {
                self.content_tiles.insert(key, ImageEntry { image: None, usage_counter: 1 });
                assert(self.entries() =~= before.insert(key, ImageEntry { image: None, usage_counter: 1 }));
                // Eventually a request from a dropped subscription is still outstanding.
                if !self.tiles_in_flight.insert(key) {
                    return None;
                }
                if self.is_initialized {
                    Some(*position)
                } else {
                    self.pending_requests.push(*position);
                    None
                }
            },
        }
    }
}

/// The tiles that a subscription of the client to the area adds.
pub open spec fn subscription_added(
    regions: Map<u32, BoundingRectangle>,
    client: u32,
    area: BoundingRectangle,
) -> Seq<TilePosition> {
    if regions.contains_key(client) {
        added_tiles(regions[client], area)
    } else {
        area.positions()
    }
}

/// The tiles that a subscription of the client to the area drops.
pub open spec fn subscription_deleted(
    regions: Map<u32, BoundingRectangle>,
    client: u32,
    area: BoundingRectangle,
) -> Seq<TilePosition> {
    if regions.contains_key(client) {
        deleted_tiles(regions[client], area)
    } else {
        Seq::empty()
    }
}

/// The added tiles that get a request: those without an entry and without an outstanding
/// request.
pub open spec fn fresh_tiles(
    added: Seq<TilePosition>,
    entries: Map<u128, ImageEntry>,
    in_flight: Set<u128>,
) -> Seq<TilePosition> {
    added.filter(
        |p: TilePosition|
            !entries.contains_key(position_key(p)) && !in_flight.contains(position_key(p)),
    )
}

/// Two positions with the same key are the same.
proof fn lemma_key_injective(p: TilePosition, q: TilePosition)
    ensures
        position_key(p) == position_key(q) ==> p == q,
{
    lemma_position_key_round_trip(p);
    lemma_position_key_round_trip(q);
}

impl TileCache {
    /// The usage of each position is its usage before plus one where the list holds it; the
    /// images of old entries stay and new entries have none.
    spec fn counted_up(&self, usage0: spec_fn(TilePosition) -> nat, entries0: Map<u128, ImageEntry>, list: Seq<TilePosition>) -> bool {
        &&& forall|p: TilePosition|
            #[trigger] self.usage(p) == usage0(p) + (if list.contains(p) {
                1int
            } else {
                0int
            })
        &&& forall|k: u128| #[trigger]
            self.entries().contains_key(k) ==> k == position_key(key_position(k))
                && self.entries()[k].usage_counter >= 1 && self.entries()[k].image == (
            if entries0.contains_key(k) {
                entries0[k].image
            } else {
                None
            })
    }

    /// The client subscribes to a new area, replacing its former one: the tiles of the new area
    /// that the old one did not hold are counted up, those of the old area that the new one
    /// does not hold are counted down. The new tiles that have no outstanding request are
    /// requested; before the core is initialized the requests wait, else they are given back.
    #[verifier::rlimit(50)]
    pub fn register_new_interest_area(&mut self, client: u32, area: BoundingRectangle) -> (requests:
        Vec<TilePosition>)
        requires
            old(self).wf(),
            area.fits(),
            old(self).regions().contains_key(client) && old(self).regions()[client].zoom == area.zoom
                ==> union_defined(old(self).regions()[client], area),
            old(self).regions().contains_key(client) || old(self).regions().dom().len() + 1
                < u32::MAX,
        ensures
            final(self).wf(),
            final(self).regions() == old(self).regions().insert(client, area),
            forall|k: u128| #[trigger]
                final(self).entries().contains_key(k) ==> final(self).entries()[k].image == (
                if old(self).entries().contains_key(k) {
                    old(self).entries()[k].image
                } else {
                    None
                }),
            forall|k: u128|
                #[trigger] final(self).in_flight().contains(k) == (old(self).in_flight().contains(k)
                    || (!old(self).entries().contains_key(k) && exists|p: TilePosition|
                    subscription_added(old(self).regions(), client, area).contains(p)
                        && position_key(p) == k)),
            old(self).initialized() ==> requests@ == fresh_tiles(
                subscription_added(old(self).regions(), client, area),
                old(self).entries(),
                old(self).in_flight(),
            ) && final(self).pending() == old(self).pending(),
            !old(self).initialized() ==> requests@ == Seq::<TilePosition>::empty()
                && final(self).pending() == old(self).pending() + fresh_tiles(
                subscription_added(old(self).regions(), client, area),
                old(self).entries(),
                old(self).in_flight(),
            ),
            final(self).notified() == old(self).notified(),
            final(self).initialized() == old(self).initialized(),
            final(self).error_text() == old(self).error_text(),
            final(self).tile_error_text() == old(self).tile_error_text(),
    {
        let ghost regions0 = self.regions();
        let ghost entries0 = self.entries();
        let ghost in_flight0 = self.in_flight();
        let ghost pending0 = self.pending();
        let ghost usage0 = |p: TilePosition| self.usage(p);
        let ghost a = subscription_added(regions0, client, area);
        let ghost d = subscription_deleted(regions0, client, area);
        let ghost fresh = |p: TilePosition|
            !entries0.contains_key(position_key(p)) && !in_flight0.contains(position_key(p));
        let mut tile_change = TileChange { deleted: Vec::new(), added: Vec::new() };
        // Do we already have something?
        match self.subscription_region.remove(client) {
            Some(old_area) => {
                tile_change = old_area.generate_deletion_creation_list(&area);
            },
            None => {
                // This is a new region, completely register it.
                tile_change.added = area.get_iterator();
            },
        }
        proof {
            assert(tile_change.added@ == a);
            assert(tile_change.deleted@ =~= d);
            lemma_positions_unique(area);
            if regions0.contains_key(client) {
                let o = regions0[client];
                lemma_positions_unique(o);
                if o.zoom == area.zoom {
                    lemma_positions_unique(crate::gui_system::math_coordinates::spec_union(o, area));
                    lemma_filter_unique(
                        crate::gui_system::math_coordinates::spec_union(o, area).positions(),
                        |q: TilePosition| !o.holds(q) && area.holds(q),
                    );
                    lemma_filter_unique(
                        crate::gui_system::math_coordinates::spec_union(o, area).positions(),
                        |q: TilePosition| o.holds(q) && !area.holds(q),
                    );
                }
            }
            assert(a.no_duplicates());
            assert(d.no_duplicates());
            assert forall|p: TilePosition| #[trigger] d.contains(p) implies usage0(p) >= 1 by {
                let o = regions0[client];
                lemma_deletion_creation(o, area, p);
                lemma_holders_remove(regions0, client, p);
            }
            assert forall|p: TilePosition| #[trigger] usage0(p) < u32::MAX by {
                lemma_holders_bound(regions0, p);
            }
            assert(a.take(0) =~= Seq::<TilePosition>::empty());
            reveal(Seq::filter);
            assert(self.counted_up(usage0, entries0, a.take(0)));
        }
        let mut requests: Vec<TilePosition> = Vec::new();
        let mut i: usize = 0;
        while i < tile_change.added.len()
            invariant
                0 <= i <= a.len(),
                tile_change.added@ == a,
                a.no_duplicates(),
                usage0 == (|p: TilePosition| old(self).usage(p)),
                forall|p: TilePosition| #[trigger] usage0(p) < u32::MAX,
                forall|p: TilePosition| (#[trigger] usage0(p) > 0) == entries0.contains_key(position_key(p)),
                entries0 == old(self).entries(),
                self.counted_up(usage0, entries0, a.take(i as int)),
                forall|k: u128|
                    #[trigger] self.in_flight().contains(k) == (in_flight0.contains(k) || (
                    !entries0.contains_key(k) && exists|p: TilePosition|
                        a.take(i as int).contains(p) && position_key(p) == k)),
                fresh == (|p: TilePosition|
                    !entries0.contains_key(position_key(p)) && !in_flight0.contains(position_key(p))),
                self.initialized() ==> requests@ == a.take(i as int).filter(fresh) && self.pending()
                    == pending0,
                !self.initialized() ==> requests@ == Seq::<TilePosition>::empty() && self.pending()
                    == pending0 + a.take(i as int).filter(fresh),
                self.initialized() == old(self).initialized(),
                self.regions() == regions0.remove(client),
                self.notified() == old(self).notified(),
                self.error_text() == old(self).error_text(),
                self.tile_error_text() == old(self).tile_error_text(),
            decreases a.len() - i,
        {
            let pos = tile_change.added[i];
            let ghost before = *self;
            proof {
                assert(!a.take(i as int).contains(pos)) by {
                    if a.take(i as int).contains(pos) {
                        let t = choose|t: int| 0 <= t < i && a.take(i as int)[t] == pos;
                        assert(a[t] == a[i as int]);
                    }
                }
                assert(self.usage(pos) == usage0(pos));
                assert forall|q: TilePosition| a.take(i as int).contains(q) implies position_key(q)
                    != position_key(pos) by {
                    lemma_key_injective(q, pos);
                }
                if self.entries().contains_key(position_key(pos)) {
                    assert(self.usage(pos) >= 1);
                }
            }
            let request = self.increment_usage(&pos);
            match request {
                Some(p) => {
                    requests.push(p);
                },
                None => {},
            }
            proof {
                lemma_filter_step(a, fresh, i as int);
                let t1 = a.take(i + 1);
                assert(t1 =~= a.take(i as int).push(pos));
                assert forall|q: TilePosition| t1.contains(q) == (a.take(i as int).contains(q) || q == pos) by {
                    if t1.contains(q) {
                        let t = choose|t: int| 0 <= t < t1.len() && t1[t] == q;
                        if t < i {
                            assert(a.take(i as int)[t] == q);
                        }
                    }
                    if a.take(i as int).contains(q) {
                        let t = choose|t: int| 0 <= t < i && a.take(i as int)[t] == q;
                        assert(t1[t] == q);
                    }
                    if q == pos {
                        assert(t1[i as int] == q);
                    }
                }
                assert forall|q: TilePosition| #[trigger] self.usage(q) == usage0(q) + (if t1.contains(q) {
                    1int
                } else {
                    0int
                }) by {
                    lemma_key_injective(q, pos);
                    assert(before.usage(q) == usage0(q) + (if a.take(i as int).contains(q) {
                        1int
                    } else {
                        0int
                    }));
                }
                assert forall|k: u128|
                    #[trigger] self.in_flight().contains(k) == (in_flight0.contains(k) || (
                    !entries0.contains_key(k) && exists|p: TilePosition|
                        t1.contains(p) && position_key(p) == k)) by {
                    if k == position_key(pos) {
                        assert(t1.contains(pos));
                    } else {
                        if exists|p: TilePosition| t1.contains(p) && position_key(p) == k {
                            let p = choose|p: TilePosition| t1.contains(p) && position_key(p) == k;
                            assert(a.take(i as int).contains(p));
                        }
                    }
                }
                lemma_position_key_round_trip(pos);
                assert(before.entries().contains_key(position_key(pos)) == entries0.contains_key(
                    position_key(pos),
                )) by {
                    assert(before.usage(pos) == usage0(pos));
                }
                assert forall|k: u128| #[trigger]
                    self.entries().contains_key(k) implies k == position_key(key_position(k))
                        && self.entries()[k].usage_counter >= 1 && self.entries()[k].image == (
                    if entries0.contains_key(k) {
                        entries0[k].image
                    } else {
                        None
                    }) by {
                    if k != position_key(pos) {
                        assert(before.entries().contains_key(k));
                    }
                }
                assert(self.counted_up(usage0, entries0, t1));
                if self.initialized() {
                    assert(requests@ =~= t1.filter(fresh));
                } else {
                    assert(self.pending() =~= pending0 + t1.filter(fresh));
                }
            }
            i = i + 1;
        }
        proof {
            assert(a.take(i as int) =~= a);
        }
        let ghost usage1 = |p: TilePosition| self.usage(p);
        let ghost in_flight1 = self.in_flight();
        let ghost pending1 = self.pending();
        let mut j: usize = 0;
        proof {
            assert(d.take(0) =~= Seq::<TilePosition>::empty());
            assert forall|p: TilePosition| #[trigger] usage1(p) == usage0(p) + (if a.contains(p) {
                1int
            } else {
                0int
            }) by {
                assert(self.usage(p) == usage0(p) + (if a.contains(p) {
                    1int
                } else {
                    0int
                }));
            }
        }
        while j < tile_change.deleted.len()
            invariant
                0 <= j <= d.len(),
                tile_change.deleted@ == d,
                d.no_duplicates(),
                usage0 == (|p: TilePosition| old(self).usage(p)),
                forall|p: TilePosition| #[trigger] d.contains(p) ==> usage0(p) >= 1,
                forall|p: TilePosition|
                    #[trigger] usage1(p) == usage0(p) + (if a.contains(p) {
                        1int
                    } else {
                        0int
                    }),
                forall|p: TilePosition|
                    #[trigger] self.usage(p) == usage1(p) - (if d.take(j as int).contains(p) {
                        1int
                    } else {
                        0int
                    }),
                forall|k: u128| #[trigger]
                    self.entries().contains_key(k) ==> k == position_key(key_position(k))
                        && self.entries()[k].usage_counter >= 1 && self.entries()[k].image == (
                    if entries0.contains_key(k) {
                        entries0[k].image
                    } else {
                        None
                    }),
                self.in_flight() == in_flight1,
                self.pending() == pending1,
                self.initialized() == old(self).initialized(),
                self.regions() == regions0.remove(client),
                self.notified() == old(self).notified(),
                self.error_text() == old(self).error_text(),
                self.tile_error_text() == old(self).tile_error_text(),
            decreases d.len() - j,
        {
            let pos = tile_change.deleted[j];
            let ghost before = *self;
            proof {
                assert(!d.take(j as int).contains(pos)) by {
                    if d.take(j as int).contains(pos) {
                        let t = choose|t: int| 0 <= t < j && d.take(j as int)[t] == pos;
                        assert(d[t] == d[j as int]);
                    }
                }
                assert(d.contains(pos)) by {
                    assert(d[j as int] == pos);
                }
                assert(self.usage(pos) >= 1);
            }
            self.decrement_usage(&pos);
            proof {
                let t1 = d.take(j + 1);
                assert forall|q: TilePosition| t1.contains(q) == (d.take(j as int).contains(q) || q == pos) by {
                    if t1.contains(q) {
                        let t = choose|t: int| 0 <= t < t1.len() && t1[t] == q;
                        if t < j {
                            assert(d.take(j as int)[t] == q);
                        }
                    }
                    if d.take(j as int).contains(q) {
                        let t = choose|t: int| 0 <= t < j && d.take(j as int)[t] == q;
                        assert(t1[t] == q);
                    }
                    if q == pos {
                        assert(t1[j as int] == q);
                    }
                }
                assert forall|q: TilePosition| #[trigger] self.usage(q) == usage1(q) - (if t1.contains(q) {
                    1int
                } else {
                    0int
                }) by {
                    lemma_key_injective(q, pos);
                    assert(before.usage(q) == usage1(q) - (if d.take(j as int).contains(q) {
                        1int
                    } else {
                        0int
                    }));
                }
            }
            j = j + 1;
        }
        proof {
            assert(d.take(j as int) =~= d);
        }
        let ghost after_loop = *self;
        self.subscription_region.insert(client, area);
        proof {
            let r2 = regions0.insert(client, area);
            assert(self.regions() =~= r2);
            assert forall|p: TilePosition| #[trigger] self.usage(p) == holders(self.regions(), p) by {
                lemma_holders_remove(regions0, client, p);
                lemma_holders_insert(regions0, client, area, p);
                lemma_positions_hold(area, p);
                assert(usage0(p) == old(self).usage(p));
                assert(old(self).usage(p) == holders(regions0, p));
                let ia: int = if a.contains(p) {
                    1
                } else {
                    0
                };
                let id: int = if d.contains(p) {
                    1
                } else {
                    0
                };
                assert(after_loop.usage(p) == usage1(p) - id);
                assert(self.usage(p) == after_loop.usage(p));
                assert(usage1(p) == usage0(p) + ia);
                if regions0.contains_key(client) {
                    lemma_deletion_creation(regions0[client], area, p);
                    assert(ia == (if !regions0[client].holds(p) && area.holds(p) {
                        1int
                    } else {
                        0int
                    }));
                    assert(id == (if regions0[client].holds(p) && !area.holds(p) {
                        1int
                    } else {
                        0int
                    }));
                } else {
                    assert(ia == (if area.holds(p) {
                        1int
                    } else {
                        0int
                    }));
                    assert(id == 0);
                }
                assert(holders(self.regions(), p) == holders(r2, p));
            }
            if regions0.contains_key(client) {
                assert(r2.dom() =~= regions0.dom());
            } else {
                assert(r2.dom() =~= regions0.dom().insert(client));
            }
            assert(fresh_tiles(a, entries0, in_flight0) == a.filter(fresh));
            assert(self.entries() == after_loop.entries());
            assert forall|k: u128| #[trigger] self.entries().contains_key(k) implies k == position_key(
                key_position(k),
            ) && self.entries()[k].usage_counter >= 1 by {
                assert(after_loop.entries().contains_key(k));
            }
            assert forall|c: u32| #[trigger] self.regions().contains_key(c) implies self.regions()[c].fits() by {
                if c != client {
                    assert(regions0.contains_key(c));
                }
            }
            assert(self.regions().dom().finite());
            assert(self.regions().dom().len() < u32::MAX);
        }
        requests
    }
}

impl TileCache {
    /// The client drops its subscription: every tile of its area is counted down.
    #[verifier::rlimit(50)]
    pub fn completely_unsubscribe(&mut self, client: u32)
        requires
            old(self).wf(),
        ensures
            final(self).wf(),
            final(self).regions() == old(self).regions().remove(client),
            forall|k: u128| #[trigger]
                final(self).entries().contains_key(k) ==> old(self).entries().contains_key(k)
                    && final(self).entries()[k].image == old(self).entries()[k].image,
            final(self).in_flight() == old(self).in_flight(),
            final(self).pending() == old(self).pending(),
            final(self).notified() == old(self).notified(),
            final(self).initialized() == old(self).initialized(),
            final(self).error_text() == old(self).error_text(),
            final(self).tile_error_text() == old(self).tile_error_text(),
    {
        let ghost regions0 = self.regions();
        let ghost entries0 = self.entries();
        let ghost usage0 = |p: TilePosition| self.usage(p);
        let region = match self.subscription_region.remove(client) {
            Some(region) => region,
            None => {
                proof {
                    assert(regions0.remove(client) =~= regions0);
                    assert(self.regions() == regions0);
                    assert forall|p: TilePosition| #[trigger] self.usage(p) == holders(self.regions(), p) by {
                        assert(old(self).usage(p) == holders(regions0, p));
                    }
                }
                return;
            },
        };
        let positions = region.get_iterator();
        let ghost ps = positions@;
        proof {
            lemma_positions_unique(region);
            assert forall|p: TilePosition| #[trigger] ps.contains(p) implies usage0(p) >= 1 by {
                lemma_positions_hold(region, p);
                lemma_holders_remove(regions0, client, p);
            }
            assert(ps.take(0) =~= Seq::<TilePosition>::empty());
        }
        let mut j: usize = 0;
        while j < positions.len()
            invariant
                0 <= j <= ps.len(),
                positions@ == ps,
                ps.no_duplicates(),
                usage0 == (|p: TilePosition| old(self).usage(p)),
                forall|p: TilePosition| #[trigger] ps.contains(p) ==> usage0(p) >= 1,
                forall|p: TilePosition|
                    #[trigger] self.usage(p) == usage0(p) - (if ps.take(j as int).contains(p) {
                        1int
                    } else {
                        0int
                    }),
                forall|k: u128| #[trigger]
                    self.entries().contains_key(k) ==> k == position_key(key_position(k))
                        && self.entries()[k].usage_counter >= 1 && entries0.contains_key(k)
                        && self.entries()[k].image == entries0[k].image,
                entries0 == old(self).entries(),
                self.in_flight() == old(self).in_flight(),
                self.pending() == old(self).pending(),
                self.initialized() == old(self).initialized(),
                self.regions() == regions0.remove(client),
                self.notified() == old(self).notified(),
                self.error_text() == old(self).error_text(),
                self.tile_error_text() == old(self).tile_error_text(),
            decreases ps.len() - j,
        {
            let pos = positions[j];
            let ghost before = *self;
            proof {
                assert(!ps.take(j as int).contains(pos)) by {
                    if ps.take(j as int).contains(pos) {
                        let t = choose|t: int| 0 <= t < j && ps.take(j as int)[t] == pos;
                        assert(ps[t] == ps[j as int]);
                    }
                }
                assert(ps.contains(pos)) by {
                    assert(ps[j as int] == pos);
                }
                assert(self.usage(pos) >= 1);
            }
            self.decrement_usage(&pos);
            proof {
                let t1 = ps.take(j + 1);
                assert forall|q: TilePosition| t1.contains(q) == (ps.take(j as int).contains(q) || q == pos) by {
                    if t1.contains(q) {
                        let t = choose|t: int| 0 <= t < t1.len() && t1[t] == q;
                        if t < j {
                            assert(ps.take(j as int)[t] == q);
                        }
                    }
                    if ps.take(j as int).contains(q) {
                        let t = choose|t: int| 0 <= t < j && ps.take(j as int)[t] == q;
                        assert(t1[t] == q);
                    }
                    if q == pos {
                        assert(t1[j as int] == q);
                    }
                }
                assert forall|q: TilePosition| #[trigger] self.usage(q) == usage0(q) - (if t1.contains(q) {
                    1int
                } else {
                    0int
                }) by {
                    lemma_key_injective(q, pos);
                    assert(before.usage(q) == usage0(q) - (if ps.take(j as int).contains(q) {
                        1int
                    } else {
                        0int
                    }));
                }
                assert forall|k: u128| #[trigger]
                    self.entries().contains_key(k) implies k == position_key(key_position(k))
                        && self.entries()[k].usage_counter >= 1 && entries0.contains_key(k)
                        && self.entries()[k].image == entries0[k].image by {
                    assert(before.entries().contains_key(k));
                }
            }
            j = j + 1;
        }
        proof {
            assert(ps.take(j as int) =~= ps);
            assert forall|p: TilePosition| #[trigger] self.usage(p) == holders(self.regions(), p) by {
                lemma_holders_remove(regions0, client, p);
                lemma_positions_hold(region, p);
                assert(usage0(p) == old(self).usage(p));
                assert(old(self).usage(p) == holders(regions0, p));
            }
            assert(self.regions().dom() =~= regions0.dom().remove(client));
            assert forall|c: u32| #[trigger] self.regions().contains_key(c) implies self.regions()[c].fits() by {
                assert(regions0.contains_key(c));
            }
        }
    }
}

/// The clients whose area holds the position.
pub open spec fn holding_clients(regions: Map<u32, BoundingRectangle>, p: TilePosition) -> Set<u32> {
    Set::new(|c: u32| regions.contains_key(c) && regions[c].holds(p))
}

/// The bookkeeping stays consistent when the subscriptions and the counters stay the same.
proof fn lemma_wf_frame(a: TileCache, b: TileCache)
    requires
        a.wf(),
        b.regions() == a.regions(),
        b.entries().dom() == a.entries().dom(),
        forall|k: u128| #[trigger]
            b.entries().contains_key(k) ==> b.entries()[k].usage_counter == a.entries()[k].usage_counter,
    ensures
        b.wf(),
{
    assert forall|p: TilePosition| #[trigger] b.usage(p) == holders(b.regions(), p) by {
        assert(a.usage(p) == holders(a.regions(), p));
        assert(a.entries().contains_key(position_key(p)) == b.entries().contains_key(position_key(p)));
    }
    assert forall|k: u128| #[trigger] b.entries().contains_key(k) implies k == position_key(
        key_position(k),
    ) && b.entries()[k].usage_counter >= 1 by {
        assert(a.entries().contains_key(k));
    }
}

impl TileCache {
    /// Gives back the requests that waited for the initialization.
    fn flush_pending_requests(&mut self) -> (r: Vec<TilePosition>)
        ensures
            r@ == old(self).pending(),
            final(self).pending() == Seq::<TilePosition>::empty(),
            final(self).regions() == old(self).regions(),
            final(self).entries() == old(self).entries(),
            final(self).in_flight() == old(self).in_flight(),
            final(self).notified() == old(self).notified(),
            final(self).initialized() == old(self).initialized(),
            final(self).error_text() == old(self).error_text(),
            final(self).tile_error_text() == old(self).tile_error_text(),
    {
        let mut pending = Vec::new();
        std::mem::swap(&mut pending, &mut self.pending_requests);
        pending
    }

    /// Notes the clients whose area holds a position that got its image.
    fn notify_holders(&mut self, pos: &TilePosition)
        requires
            old(self).wf(),
        ensures
            final(self).notified() == old(self).notified().union(
                holding_clients(old(self).regions(), *pos),
            ),
            final(self).regions() == old(self).regions(),
            final(self).entries() == old(self).entries(),
            final(self).in_flight() == old(self).in_flight(),
            final(self).pending() == old(self).pending(),
            final(self).initialized() == old(self).initialized(),
            final(self).error_text() == old(self).error_text(),
            final(self).tile_error_text() == old(self).tile_error_text(),
    {
        let regions = self.subscription_region.entries();
        let ghost rs = regions@;
        let ghost regions0 = self.regions();
        let ghost notified0 = self.notified();
        let ghost ids = rs.map_values(|e: (u32, BoundingRectangle)| e.0);
        let mut i: usize = 0;
        while i < regions.len()
            invariant
                0 <= i <= rs.len(),
                regions@ == rs,
                ids == rs.map_values(|e: (u32, BoundingRectangle)| e.0),
                ids.to_set() == regions0.dom(),
                forall|t: int| 0 <= t < rs.len() ==> regions0[#[trigger] rs[t].0] == rs[t].1,
                forall|c: u32| #[trigger] regions0.contains_key(c) ==> regions0[c].fits(),
                forall|c: u32|
                    #[trigger] self.notified().contains(c) == (notified0.contains(c) || exists|t: int|
                        0 <= t < i && rs[t].0 == c && rs[t].1.holds(*pos)),
                self.regions() == regions0,
                self.entries() == old(self).entries(),
                self.in_flight() == old(self).in_flight(),
                self.pending() == old(self).pending(),
                self.initialized() == old(self).initialized(),
                self.error_text() == old(self).error_text(),
                self.tile_error_text() == old(self).tile_error_text(),
            decreases rs.len() - i,
        {
            let (client, region) = regions[i];
            proof {
                assert(ids[i as int] == client);
                assert(ids.to_set().contains(client));
                assert(regions0[client] == region);
            }
            let ghost n_before = self.notified();
            let holds = region.contains_position(pos);
            if holds {
                self.client_notifications.insert(client);
            }
            proof {
                assert(rs[i as int] == (client, region));
                assert forall|c: u32|
                    #[trigger] self.notified().contains(c) == (notified0.contains(c) || exists|t: int|
                        0 <= t < i + 1 && rs[t].0 == c && rs[t].1.holds(*pos)) by {
                    if exists|t: int| 0 <= t < i + 1 && rs[t].0 == c && rs[t].1.holds(*pos) {
                        let t = choose|t: int| 0 <= t < i + 1 && rs[t].0 == c && rs[t].1.holds(*pos);
                        if t < i {
                            assert(exists|t2: int| 0 <= t2 < i && rs[t2].0 == c && rs[t2].1.holds(*pos));
                        } else {
                            assert(t == i);
                        }
                    }
                    if c == client && holds {
                        assert(rs[i as int].0 == c && rs[i as int].1.holds(*pos));
                    }
                    if n_before.contains(c) && !notified0.contains(c) {
                        let t = choose|t: int| 0 <= t < i && rs[t].0 == c && rs[t].1.holds(*pos);
                        assert(0 <= t < i + 1 && rs[t].0 == c && rs[t].1.holds(*pos));
                    }
                }
            }
            i = i + 1;
        }
        proof {
            assert(self.notified() =~= notified0.union(holding_clients(regions0, *pos))) by {
                assert forall|c: u32| self.notified().contains(c) == (notified0.contains(c) || holding_clients(regions0, *pos).contains(c)) by {
                    if holding_clients(regions0, *pos).contains(c) {
                        assert(ids.to_set().contains(c));
                        let t = choose|t: int| 0 <= t < ids.len() && ids[t] == c;
                        assert(rs[t].0 == c);
                    }
                    if exists|t: int| 0 <= t < i && rs[t].0 == c && rs[t].1.holds(*pos) {
                        let t = choose|t: int| 0 <= t < i && rs[t].0 == c && rs[t].1.holds(*pos);
                        assert(ids[t] == c);
                        assert(ids.to_set().contains(c));
                    }
                }
            }
        }
    }

    /// Processes a message of the caching core. An error is appended to the error text; the
    /// completed initialization gives back the waiting requests; the data of a tile settles its
    /// request, becomes its image if the tile is still used and notifies the clients whose area
    /// holds it; a failed tile settles its request and keeps the first failure text.
    pub fn process_caching_message(&mut self, message: CachingResultMessage) -> (requests: Vec<
        TilePosition,
    >)
        requires
            old(self).wf(),
        ensures
            final(self).wf(),
            final(self).regions() == old(self).regions(),
            match message {
                CachingResultMessage::Error { message: text } => {
                    &&& final(self).error_text() == old(self).error_text() + text@ + seq!['\n']
                    &&& final(self).entries() == old(self).entries()
                    &&& final(self).in_flight() == old(self).in_flight()
                    &&& final(self).notified() == old(self).notified()
                    &&& final(self).pending() == old(self).pending()
                    &&& final(self).initialized() == old(self).initialized()
                    &&& final(self).tile_error_text() == old(self).tile_error_text()
                    &&& requests@ == Seq::<TilePosition>::empty()
                },
                CachingResultMessage::InitializationCompleted => {
                    &&& final(self).initialized()
                    &&& final(self).pending() == Seq::<TilePosition>::empty()
                    &&& requests@ == old(self).pending()
                    &&& final(self).entries() == old(self).entries()
                    &&& final(self).in_flight() == old(self).in_flight()
                    &&& final(self).notified() == old(self).notified()
                    &&& final(self).error_text() == old(self).error_text()
                    &&& final(self).tile_error_text() == old(self).tile_error_text()
                },
                CachingResultMessage::TileData { level, x, y, data } => {
                    let pos = TilePosition { x, y, zoom: level };
                    let k = position_key(pos);
                    &&& final(self).in_flight() == old(self).in_flight().remove(k)
                    &&& if old(self).entries().contains_key(k) {
                        &&& final(self).entries() == old(self).entries().insert(
                            k,
                            ImageEntry {
                                image: Some(data),
                                usage_counter: old(self).entries()[k].usage_counter,
                            },
                        )
                        &&& final(self).notified() == old(self).notified().union(
                            holding_clients(old(self).regions(), pos),
                        )
                    } else {
                        &&& final(self).entries() == old(self).entries()
                        &&& final(self).notified() == old(self).notified()
                    }
                    &&& final(self).pending() == old(self).pending()
                    &&& final(self).initialized() == old(self).initialized()
                    &&& final(self).error_text() == old(self).error_text()
                    &&& final(self).tile_error_text() == old(self).tile_error_text()
                    &&& requests@ == Seq::<TilePosition>::empty()
                },
                CachingResultMessage::TileFailed { level, x, y, message: text } => {
                    &&& final(self).in_flight() == old(self).in_flight().remove(
                        position_key(TilePosition { x, y, zoom: level }),
                    )
                    &&& final(self).tile_error_text() == (if old(self).tile_error_text().len() == 0 {
                        text@
                    } else {
                        old(self).tile_error_text()
                    })
                    &&& final(self).entries() == old(self).entries()
                    &&& final(self).notified() == old(self).notified()
                    &&& final(self).pending() == old(self).pending()
                    &&& final(self).initialized() == old(self).initialized()
                    &&& final(self).error_text() == old(self).error_text()
                    &&& requests@ == Seq::<TilePosition>::empty()
                },
            },
    {
        match message {
            CachingResultMessage::Error { message: text } => {
                self.error_msg.append(text.as_str());
                push_char(&mut self.error_msg, '\n');
                proof {
                    lemma_wf_frame(*old(self), *self);
                }
                Vec::new()
            },
            CachingResultMessage::InitializationCompleted => {
                self.is_initialized = true;
                let requests = self.flush_pending_requests();
                proof {
                    lemma_wf_frame(*old(self), *self);
                }
                requests
            },
            CachingResultMessage::TileData { x, y, level, data } => {
                let pos = TilePosition { x, y, zoom: level };
                let key = key_of(&pos);
                // The request is settled, no matter if anybody is still interested.
                self.tiles_in_flight.remove(key);
                proof {
                    lemma_wf_frame(*old(self), *self);
                }
                // Eventually we have a late arriver nobody is interested in anymore.
                let usage_counter = match self.content_tiles.get_ref(key) {
                    Some(entry) => entry.usage_counter,
                    None => {
                        return Vec::new();
                    },
                };
                let ghost before = *self;
                self.content_tiles.insert(key, ImageEntry { image: Some(data), usage_counter });
                proof {
                    assert(self.entries().dom() =~= before.entries().dom());
                    lemma_wf_frame(before, *self);
                }
                let ghost before_notify = *self;
                self.notify_holders(&pos);
                proof {
                    lemma_wf_frame(before_notify, *self);
                }
                Vec::new()
            },
            CachingResultMessage::TileFailed { x, y, level, message } => {
                let pos = TilePosition { x, y, zoom: level };
                self.tiles_in_flight.remove(key_of(&pos));
                proof {
                    lemma_wf_frame(*old(self), *self);
                }
                if self.tile_error_msg.as_str().unicode_len() == 0 {
                    self.tile_error_msg = message;
                }
                proof {
                    lemma_wf_frame(*old(self), *self);
                }
                Vec::new()
            },
        }
    }
}

/// The client a notification is for.
pub open spec fn notified_client(m: CacheUpdateMessage) -> u32 {
    match m {
        CacheUpdateMessage::RelevantTilesArrived { client } => client,
        CacheUpdateMessage::ErrorMessage { .. } => 0,
    }
}

/// The tiles that failed: those with an entry, without an image and without an outstanding
/// request.
pub open spec fn failed_keys(entries: Map<u128, ImageEntry>, in_flight: Set<u128>) -> Set<u128> {
    entries.dom().filter(|k: u128| entries[k].image is None && !in_flight.contains(k))
}

/// The positions of tiles to draw, each with the bytes of its image.
pub open spec fn drawn_view(tiles: Seq<TilesToDraw>) -> Seq<(TilePosition, Seq<u8>)> {
    tiles.map_values(|t: TilesToDraw| (t.position, t.image@))
}

/// The tiles of a list of positions that have an image, each with the bytes of its image, in
/// list order.
pub open spec fn drawn_tiles(ps: Seq<TilePosition>, entries: Map<u128, ImageEntry>) -> Seq<
    (TilePosition, Seq<u8>),
>
    decreases ps.len(),
{
    if ps.len() == 0 {
        Seq::empty()
    } else {
        let rest = drawn_tiles(ps.drop_last(), entries);
        let k = position_key(ps.last());
        if entries.contains_key(k) && entries[k].image is Some {
            rest.push((ps.last(), entries[k].image->0@))
        } else {
            rest
        }
    }
}

/// A list of keys without duplicates, filtered, has as many elements as the set of its keys,
/// filtered.
proof fn lemma_filtered_keys_len(keys: Seq<u128>, dom: Set<u128>, pred: spec_fn(u128) -> bool)
    requires
        keys.no_duplicates(),
        keys.to_set() == dom,
    ensures
        keys.filter(pred).len() == dom.filter(pred).len(),
        keys.filter(pred).no_duplicates(),
        keys.filter(pred).to_set() == dom.filter(pred),
{
    crate::gui_system::math_coordinates::lemma_filter_unique(keys, pred);
    let f = keys.filter(pred);
    assert(f.to_set() =~= dom.filter(pred)) by {
        assert forall|k: u128| f.to_set().contains(k) == dom.filter(pred).contains(k) by {
            assert(f.contains(k) == (keys.contains(k) && pred(k)));
        }
    }
    f.unique_seq_to_set();
}

impl TileCache {
    /// The area the client subscribes to, if any.
    pub fn region_of(&self, client: u32) -> (r: Option<BoundingRectangle>)
        ensures
            r == (if self.regions().contains_key(client) {
                Some(self.regions()[client])
            } else {
                None
            }),
    {
        self.subscription_region.get(client)
    }

    /// Whether the core has completed its initialization.
    pub fn is_initialized(&self) -> (r: bool)
        ensures
            r == self.initialized(),
    {
        self.is_initialized
    }

    /// Gives back the accumulated messages: first the error text, if there is any, trimmed,
    /// then one notification for each client whose area got new tiles, in an order that the
    /// hash set decides. Errors and notifications are cleared.
    #[verifier::rlimit(50)]
    pub fn drain_result_messages(&mut self) -> (r: Vec<CacheUpdateMessage>)
        requires
            old(self).wf(),
        ensures
            final(self).wf(),
            final(self).error_text() == Seq::<char>::empty(),
            final(self).tile_error_text() == Seq::<char>::empty(),
            final(self).notified() == Set::<u32>::empty(),
            final(self).regions() == old(self).regions(),
            final(self).entries() == old(self).entries(),
            final(self).in_flight() == old(self).in_flight(),
            final(self).pending() == old(self).pending(),
            final(self).initialized() == old(self).initialized(),
            ({
                let has_error = old(self).error_text().len() > 0 || old(self).tile_error_text().len()
                    > 0;
                let off: int = if has_error {
                    1
                } else {
                    0
                };
                &&& r@.len() >= off
                &&& has_error ==> (r@[0] matches CacheUpdateMessage::ErrorMessage { text } && text@
                    == trimmed(old(self).error_text() + old(self).tile_error_text()))
                &&& forall|i: int|
                    off <= i < r@.len() ==> (#[trigger] r@[i]) is RelevantTilesArrived
                &&& r@.skip(off).map_values(|m: CacheUpdateMessage| notified_client(m)).no_duplicates()
                &&& r@.skip(off).map_values(|m: CacheUpdateMessage| notified_client(m)).to_set()
                    == old(self).notified()
            }),
    {
        let mut result: Vec<CacheUpdateMessage> = Vec::new();
        let has_error = self.error_msg.as_str().unicode_len() > 0
            || self.tile_error_msg.as_str().unicode_len() > 0;
        if has_error {
            let mut text = String::new();
            std::mem::swap(&mut text, &mut self.error_msg);
            let mut tile_text = String::new();
            std::mem::swap(&mut tile_text, &mut self.tile_error_msg);
            text.append(tile_text.as_str());
            result.push(CacheUpdateMessage::ErrorMessage { text: trim(text.as_str()) });
        } else {
            assert(self.error_msg@ =~= Seq::<char>::empty());
            assert(self.tile_error_msg@ =~= Seq::<char>::empty());
        }
        let ghost off: int = if has_error {
            1
        } else {
            0
        };
        let clients = self.client_notifications.elements();
        let ghost cs = clients@;
        let mut i: usize = 0;
        while i < clients.len()
            invariant
                0 <= i <= cs.len(),
                clients@ == cs,
                result@.len() == off + i,
                off == (if has_error {
                    1int
                } else {
                    0int
                }),
                has_error ==> (result@[0] matches CacheUpdateMessage::ErrorMessage { text } && text@
                    == trimmed(old(self).error_text() + old(self).tile_error_text())),
                forall|t: int|
                    0 <= t < i ==> result@[off + t] == (CacheUpdateMessage::RelevantTilesArrived {
                        client: cs[t],
                    }),
            decreases cs.len() - i,
        {
            result.push(CacheUpdateMessage::RelevantTilesArrived { client: clients[i] });
            i = i + 1;
        }
        self.client_notifications.clear();
        proof {
            let tail = result@.skip(off);
            let ids = tail.map_values(|m: CacheUpdateMessage| notified_client(m));
            assert(ids =~= cs) by {
                assert forall|t: int| 0 <= t < cs.len() implies ids[t] == cs[t] by {
                    assert(tail[t] == result@[off + t]);
                }
            }
            assert forall|t: int| off <= t < result@.len() implies (#[trigger] result@[t]) is RelevantTilesArrived by {
                assert(result@[off + (t - off)] == (CacheUpdateMessage::RelevantTilesArrived {
                    client: cs[t - off],
                }));
            }
            lemma_wf_frame(*old(self), *self);
        }
        result
    }

    /// The number of tiles that failed and have no request outstanding; nothing has failed
    /// before the core is initialized.
    pub fn number_of_tiles_failed(&self) -> (r: u32)
        ensures
            r == (if !self.initialized() {
                0
            } else {
                failed_keys(self.entries(), self.in_flight()).len() as u32
            }),
    {
        if !self.is_initialized {
            return 0;
        }
        let keys = self.content_tiles.keys();
        let ghost pred = |k: u128| self.entries()[k].image is None && !self.in_flight().contains(k);
        let mut count: usize = 0;
        let mut i: usize = 0;
        proof {
            reveal(Seq::filter);
            assert(keys@.take(0) =~= Seq::<u128>::empty());
        }
        while i < keys.len()
            invariant
                0 <= i <= keys@.len(),
                count == keys@.take(i as int).filter(pred).len(),
                count <= i,
                keys@.to_set() == self.entries().dom(),
                pred == (|k: u128| self.entries()[k].image is None && !self.in_flight().contains(k)),
            decreases keys@.len() - i,
        {
            let key = keys[i];
            proof {
                crate::gui_system::math_coordinates::lemma_filter_step(keys@, pred, i as int);
                assert(keys@.to_set().contains(key));
            }
            match self.content_tiles.get_ref(key) {
                Some(entry) => {
                    if entry.image.is_none() && !self.tiles_in_flight.contains(key) {
                        count = count + 1;
                    }
                },
                None => {},
            }
            i = i + 1;
        }
        proof {
            assert(keys@.take(i as int) =~= keys@);
            lemma_filtered_keys_len(keys@, self.entries().dom(), pred);
            assert(self.entries().dom().filter(pred) =~= failed_keys(self.entries(), self.in_flight()));
        }
        count as u32
    }

    /// Requests again the tiles that failed and have no request outstanding, once the core is
    /// initialized: they are given back, each once, in an order that the hash map decides, and
    /// they count as outstanding from now on.
    #[verifier::rlimit(50)]
    pub fn retry_failed_tiles(&mut self) -> (r: Vec<TilePosition>)
        requires
            old(self).wf(),
        ensures
            final(self).wf(),
            !old(self).initialized() ==> r@ == Seq::<TilePosition>::empty() && final(self).in_flight()
                == old(self).in_flight(),
            old(self).initialized() ==> {
                &&& r@.map_values(|p: TilePosition| position_key(p)).no_duplicates()
                &&& r@.map_values(|p: TilePosition| position_key(p)).to_set() == failed_keys(
                    old(self).entries(),
                    old(self).in_flight(),
                )
                &&& final(self).in_flight() == old(self).in_flight().union(
                    failed_keys(old(self).entries(), old(self).in_flight()),
                )
            },
            final(self).regions() == old(self).regions(),
            final(self).entries() == old(self).entries(),
            final(self).notified() == old(self).notified(),
            final(self).pending() == old(self).pending(),
            final(self).initialized() == old(self).initialized(),
            final(self).error_text() == old(self).error_text(),
            final(self).tile_error_text() == old(self).tile_error_text(),
    {
        if !self.is_initialized {
            return Vec::new();
        }
        let keys = self.content_tiles.keys();
        let ghost entries0 = self.entries();
        let ghost in_flight0 = self.in_flight();
        let ghost pred = |k: u128| entries0[k].image is None && !in_flight0.contains(k);
        let mut missing: Vec<u128> = Vec::new();
        let mut i: usize = 0;
        proof {
            reveal(Seq::filter);
            assert(keys@.take(0) =~= Seq::<u128>::empty());
        }
        while i < keys.len()
            invariant
                0 <= i <= keys@.len(),
                missing@ == keys@.take(i as int).filter(pred),
                keys@.to_set() == entries0.dom(),
                entries0 == self.entries(),
                in_flight0 == self.in_flight(),
                pred == (|k: u128| entries0[k].image is None && !in_flight0.contains(k)),
            decreases keys@.len() - i,
        {
            let key = keys[i];
            proof {
                crate::gui_system::math_coordinates::lemma_filter_step(keys@, pred, i as int);
                assert(keys@.to_set().contains(key));
            }
            match self.content_tiles.get_ref(key) {
                Some(entry) => {
                    if entry.image.is_none() && !self.tiles_in_flight.contains(key) {
                        missing.push(key);
                    }
                },
                None => {},
            }
            i = i + 1;
        }
        proof {
            assert(keys@.take(i as int) =~= keys@);
            lemma_filtered_keys_len(keys@, entries0.dom(), pred);
            assert(entries0.dom().filter(pred) =~= failed_keys(entries0, in_flight0));
        }
        let ghost ms = missing@;
        let mut result: Vec<TilePosition> = Vec::new();
        let mut j: usize = 0;
        while j < missing.len()
            invariant
                0 <= j <= ms.len(),
                missing@ == ms,
                ms.to_set() == failed_keys(entries0, in_flight0),
                forall|k: u128| #[trigger] entries0.contains_key(k) ==> k == position_key(key_position(k)),
                result@.len() == j,
                forall|t: int| 0 <= t < j ==> position_key(#[trigger] result@[t]) == ms[t],
                forall|k: u128|
                    #[trigger] self.in_flight().contains(k) == (in_flight0.contains(k) || exists|t: int|
                        0 <= t < j && ms[t] == k),
                self.regions() == old(self).regions(),
                self.entries() == entries0,
                self.notified() == old(self).notified(),
                self.pending() == old(self).pending(),
                self.initialized() == old(self).initialized(),
                self.error_text() == old(self).error_text(),
                self.tile_error_text() == old(self).tile_error_text(),
            decreases ms.len() - j,
        {
            let key = missing[j];
            proof {
                assert(ms.to_set().contains(key));
                assert(entries0.contains_key(key));
            }
            let ghost before_in = self.in_flight();
            self.tiles_in_flight.insert(key);
            result.push(position_of(key));
            proof {
                assert(self.in_flight() == before_in.insert(key));
                assert forall|k: u128|
                    #[trigger] self.in_flight().contains(k) == (in_flight0.contains(k) || exists|t: int|
                        0 <= t < j + 1 && ms[t] == k) by {
                    if k == key {
                        assert(ms[j as int] == k);
                    }
                    if before_in.contains(k) && !in_flight0.contains(k) {
                        let t = choose|t: int| 0 <= t < j && ms[t] == k;
                        assert(0 <= t < j + 1 && ms[t] == k);
                    }
                    if exists|t: int| 0 <= t < j + 1 && ms[t] == k {
                        let t = choose|t: int| 0 <= t < j + 1 && ms[t] == k;
                        if t < j {
                            assert(exists|t2: int| 0 <= t2 < j && ms[t2] == k);
                        }
                    }
                }
            }
            j = j + 1;
        }
        proof {
            let ks = result@.map_values(|p: TilePosition| position_key(p));
            assert(ks =~= ms);
            assert(self.in_flight() =~= in_flight0.union(failed_keys(entries0, in_flight0))) by {
                assert forall|k: u128| self.in_flight().contains(k) == (in_flight0.contains(k)
                    || failed_keys(entries0, in_flight0).contains(k)) by {
                    if failed_keys(entries0, in_flight0).contains(k) {
                        assert(ms.to_set().contains(k));
                        let t = choose|t: int| 0 <= t < ms.len() && ms[t] == k;
                    }
                    if exists|t: int| 0 <= t < j && ms[t] == k {
                        let t = choose|t: int| 0 <= t < j && ms[t] == k;
                        assert(ms.to_set().contains(ms[t]));
                    }
                }
            }
            lemma_wf_frame(*old(self), *self);
        }
        result
    }

    /// The tiles of the client's area that have their image, in the order of the area; nothing
    /// for a client without a subscription.
    pub fn get_all_images_for_client(&self, client: u32) -> (r: Vec<TilesToDraw>)
        requires
            self.wf(),
        ensures
            drawn_view(r@) == (if self.regions().contains_key(client) {
                drawn_tiles(self.regions()[client].positions(), self.entries())
            } else {
                Seq::empty()
            }),
    {
        let bounding_rect = match self.subscription_region.get(client) {
            Some(rect) => rect,
            None => {
                let r = Vec::new();
                assert(drawn_view(r@) =~= Seq::<(TilePosition, Seq<u8>)>::empty());
                return r;
            },
        };
        let positions = bounding_rect.get_iterator();
        let ghost ps = positions@;
        let mut result: Vec<TilesToDraw> = Vec::new();
        let mut i: usize = 0;
        proof {
            assert(ps.take(0) =~= Seq::<TilePosition>::empty());
            assert(drawn_view(result@) =~= Seq::<(TilePosition, Seq<u8>)>::empty());
        }
        while i < positions.len()
            invariant
                0 <= i <= ps.len(),
                positions@ == ps,
                drawn_view(result@) == drawn_tiles(ps.take(i as int), self.entries()),
            decreases ps.len() - i,
        {
            let position = positions[i];
            proof {
                assert(ps.take(i + 1).drop_last() =~= ps.take(i as int));
                assert(ps.take(i + 1).last() == position);
            }
            match self.content_tiles.get_ref(key_of(&position)) {
                Some(entry) => match &entry.image {
                    Some(image) => {
                        let copied = image.clone();
                        proof {
                            assert(copied@ =~= image@);
                        }
                        let ghost prev = result@;
                        result.push(TilesToDraw { position, image: copied });
                        assert(drawn_view(result@) =~= drawn_view(prev).push((position, image@)));
                    },
                    None => {},
                },
                None => {},
            }
            i = i + 1;
        }
        proof {
            assert(ps.take(i as int) =~= ps);
        }
        result
    }
}

/// Each tile has an entry exactly while some subscription holds it, and its counter is the
/// number of subscriptions that hold it.
pub proof fn lemma_usage_counts_subscriptions(cache: TileCache, p: TilePosition)
    requires
        cache.wf(),
    ensures
        cache.usage(p) == holders(cache.regions(), p),
        cache.entries().contains_key(position_key(p)) == (holders(cache.regions(), p) > 0),
{
    if cache.entries().contains_key(position_key(p)) {
        assert(cache.entries()[position_key(p)].usage_counter >= 1);
    }
}
} // verus!
