//! Bounded, non-evicting associative stores for the renderer.
//!
//! Each cache is a fixed-capacity array with linear lookup and a
//! boolean-returning insert: once full it simply stops accepting new
//! entries, and nothing is ever evicted. Entries live for at most one
//! render pass; the base cache is additionally cleared in full at the
//! scroll boundary (see the renderer's invalidation rule).

use vstd::prelude::*;
use crate::geom::Point;
use crate::tile::{TileId, LoadedTile};

verus! {

/// Entries the base tile cache can hold.
pub const BASE_CACHE_CAPACITY: usize = 64;

/// Entries the overlay tile cache can hold: a decompressed tile is large,
/// so only a handful fit in memory.
pub const OVERLAY_CACHE_CAPACITY: usize = 4;

/// Deferred overlay placements one render pass can park.
pub const DEFERRED_CAPACITY: usize = 64;

/// Base cache: tile handle → the screen position where that tile's pixels
/// currently sit in the framebuffer.
pub struct TileCache {
    pub entries: Vec<(TileId, Point)>,
}

impl TileCache {
    /// No handle occurs twice, and the store never outgrows its capacity.
    pub open spec fn wf(&self) -> bool {
        &&& self.entries@.len() <= BASE_CACHE_CAPACITY
        &&& forall|i: int, j: int| 0 <= i < j < self.entries@.len()
                ==> (#[trigger] self.entries@[i]).0 != (#[trigger] self.entries@[j]).0
    }

    /// Is `id` present?
    pub open spec fn spec_contains(&self, id: TileId) -> bool {
        exists|i: int| 0 <= i < self.entries@.len() && (#[trigger] self.entries@[i]).0 == id
    }

    /// The position stored for `id`, if present.
    pub open spec fn spec_get(&self, id: TileId) -> Option<Point> {
        if self.spec_contains(id) {
            let i = choose|i: int| 0 <= i < self.entries@.len() && (#[trigger] self.entries@[i]).0 == id;
            Some(self.entries@[i].1)
        } else {
            None
        }
    }

    /// With distinct keys, any entry holding `id` decides the lookup.
    pub proof fn lemma_unique_key(c: TileCache, i: int, id: TileId)
        requires
            c.wf(),
            0 <= i < c.entries@.len(),
            c.entries@[i].0 == id,
        ensures
            c.spec_contains(id),
            c.spec_get(id) == Some(c.entries@[i].1),
    {
        assert(c.spec_contains(id));
        let j = choose|j: int| 0 <= j < c.entries@.len() && (#[trigger] c.entries@[j]).0 == id;
        if j < i {
            assert((c.entries@[j]).0 != (c.entries@[i]).0);
        } else if i < j {
            assert((c.entries@[i]).0 != (c.entries@[j]).0);
        }
    }

    /// A cache without an entry for `id` looks it up as `None`.
    pub proof fn lemma_absent_key(c: TileCache, id: TileId)
        requires
            forall|j: int| 0 <= j < c.entries@.len() ==> (#[trigger] c.entries@[j]).0 != id,
        ensures
            !c.spec_contains(id),
            c.spec_get(id) == None::<Point>,
    {
        if c.spec_contains(id) {
            let j = choose|j: int| 0 <= j < c.entries@.len() && (#[trigger] c.entries@[j]).0 == id;
            assert((c.entries@[j]).0 != id);
        }
    }

    pub fn new() -> (r: TileCache)
        ensures
            r.wf(),
            r.entries@.len() == 0,
            forall|id: TileId| !(#[trigger] r.spec_contains(id)),
    {
        TileCache { entries: Vec::new() }
    }

    /// Linear lookup.
    #[verifier::loop_isolation(false)]
    pub fn get(&self, id: TileId) -> (r: Option<Point>)
        requires
            self.wf(),
        ensures
            r == self.spec_get(id),
            r.is_some() <==> self.spec_contains(id),
            r.is_some() ==> exists|i: int| 0 <= i < self.entries@.len()
                && #[trigger] self.entries@[i] == (id, r.unwrap()),
    {
        let n = self.entries.len();
        let mut i: usize = 0;
        while i < n
            invariant
                0 <= i <= n,
                n == self.entries@.len(),
                forall|j: int| 0 <= j < i ==> (#[trigger] self.entries@[j]).0 != id,
            decreases n - i,
        {
            let e = self.entries[i];
            if e.0 == id {
                proof {
                    TileCache::lemma_unique_key(*self, i as int, id);
                }
                return Some(e.1);
            }
            i += 1;
        }
        proof {
            TileCache::lemma_absent_key(*self, id);
        }
        None
    }

    /// Insert-or-ignore: replace the position if the handle is already
    /// present, append if there is room, and otherwise drop the pair and
    /// report failure — never evict, never grow.
    #[verifier::loop_isolation(false)]
    pub fn insert(&mut self, id: TileId, pos: Point) -> (r: bool)
        requires
            old(self).wf(),
        ensures
            final(self).wf(),
            r == (old(self).spec_contains(id) || old(self).entries@.len() < BASE_CACHE_CAPACITY),
            final(self).spec_get(id) == if r { Some(pos) } else { None::<Point> },
            forall|other: TileId| other != id
                ==> #[trigger] final(self).spec_get(other) == old(self).spec_get(other),
            forall|i: int| 0 <= i < final(self).entries@.len()
                ==> (#[trigger] final(self).entries@[i]) == (id, pos)
                    || old(self).entries@.contains(final(self).entries@[i]),
    {
        let n = self.entries.len();
        let mut i: usize = 0;
        while i < n
            invariant
                0 <= i <= n,
                n == self.entries@.len(),
                self.entries@ == old(self).entries@,
                forall|j: int| 0 <= j < i ==> (#[trigger] self.entries@[j]).0 != id,
            decreases n - i,
        {
            let e = self.entries[i];
            if e.0 == id {
                proof {
                    TileCache::lemma_unique_key(*self, i as int, id);
                }
                self.entries.set(i, (id, pos));
                proof {
                    let ghost k = i as int;
                    assert forall|a: int, b: int| 0 <= a < b < final(self).entries@.len() implies
                        (#[trigger] final(self).entries@[a]).0 != (#[trigger] final(self).entries@[b]).0 by {
                        assert(final(self).entries@[a].0 == old(self).entries@[a].0);
                        assert(final(self).entries@[b].0 == old(self).entries@[b].0);
                        assert((old(self).entries@[a]).0 != (old(self).entries@[b]).0);
                    }
                    TileCache::lemma_unique_key(*self, k, id);
                    assert forall|other: TileId| other != id implies
                        #[trigger] final(self).spec_get(other) == old(self).spec_get(other) by {
                        if old(self).spec_contains(other) {
                            let j = choose|j: int| 0 <= j < old(self).entries@.len()
                                && (#[trigger] old(self).entries@[j]).0 == other;
                            TileCache::lemma_unique_key(*old(self), j, other);
                            assert(final(self).entries@[j] == old(self).entries@[j]);
                            TileCache::lemma_unique_key(*self, j, other);
                        } else {
                            TileCache::lemma_absent_key(*old(self), other);
                            assert forall|j: int| 0 <= j < final(self).entries@.len() implies
                                (#[trigger] final(self).entries@[j]).0 != other by {
                                if j != k {
                                    assert(old(self).entries@[j].0 != other);
                                }
                            }
                            TileCache::lemma_absent_key(*self, other);
                        }
                    }
                    assert forall|j: int| 0 <= j < final(self).entries@.len() implies
                        (#[trigger] final(self).entries@[j]) == (id, pos)
                            || old(self).entries@.contains(final(self).entries@[j]) by {
                        if j != k {
                            assert(old(self).entries@[j] == final(self).entries@[j]);
                        }
                    }
                }
                return true;
            }
            i += 1;
        }
        proof {
            TileCache::lemma_absent_key(*self, id);
        }
        if self.entries.len() < BASE_CACHE_CAPACITY {
            self.entries.push((id, pos));
            proof {
                let ghost m = final(self).entries@.len() - 1;
                assert(final(self).entries@[m] == (id, pos));
                assert(final(self).spec_contains(id));
                assert forall|j: int| 0 <= j < final(self).entries@.len()
                    && (#[trigger] final(self).entries@[j]).0 == id implies
                    final(self).entries@[j].1 == pos by {
                    if j < m {
                        assert(old(self).entries@[j].0 == id);
                    }
                }
                let ghost c = choose|j: int| 0 <= j < final(self).entries@.len()
                    && (#[trigger] final(self).entries@[j]).0 == id;
                assert(final(self).entries@[c].1 == pos);
                assert forall|other: TileId| other != id implies
                    #[trigger] final(self).spec_get(other) == old(self).spec_get(other) by {
                    assert forall|j: int| 0 <= j < final(self).entries@.len()
                        && (#[trigger] final(self).entries@[j]).0 == other implies
                        j < m by {
                        assert(final(self).entries@[m].0 == id);
                    }
                    if old(self).spec_contains(other) {
                        let j = choose|j: int| 0 <= j < old(self).entries@.len()
                            && (#[trigger] old(self).entries@[j]).0 == other;
                        TileCache::lemma_unique_key(*old(self), j, other);
                        assert(final(self).entries@[j] == old(self).entries@[j]);
                        TileCache::lemma_unique_key(*self, j, other);
                    } else {
                        TileCache::lemma_absent_key(*old(self), other);
                        assert forall|j: int| 0 <= j < final(self).entries@.len() implies
                            (#[trigger] final(self).entries@[j]).0 != other by {
                            if j < m {
                                assert(old(self).entries@[j].0 != other);
                            } else {
                                assert(final(self).entries@[j].0 == id);
                            }
                        }
                        TileCache::lemma_absent_key(*self, other);
                    }
                }
                assert forall|j: int| 0 <= j < final(self).entries@.len() implies
                    (#[trigger] final(self).entries@[j]) == (id, pos)
                        || old(self).entries@.contains(final(self).entries@[j]) by {
                    if j < m {
                        assert(old(self).entries@[j] == final(self).entries@[j]);
                    }
                }
            }
            true
        } else {
            proof {
                assert(forall|j: int| 0 <= j < final(self).entries@.len()
                    ==> old(self).entries@.contains(#[trigger] final(self).entries@[j]));
            }
            false
        }
    }

    /// Invalidate everything: the scroll-boundary checkpoint. Afterwards
    /// no lookup can return a pre-clear screen position.
    pub fn clear(&mut self)
        ensures
            final(self).wf(),
            final(self).entries@.len() == 0,
            forall|id: TileId| !(#[trigger] final(self).spec_contains(id)),
            forall|id: TileId| #[trigger] final(self).spec_get(id) == None::<Point>,
    {
        self.entries.clear();
    }
}

/// Overlay cache: tile handle → the decompressed pixel-and-mask buffer.
/// Overlay tiles are transparent, so a screen position would not do: they
/// must be recomposited against the background at every placement.
pub struct OverlayCache {
    pub entries: Vec<(TileId, LoadedTile)>,
}

impl OverlayCache {
    pub open spec fn wf(&self) -> bool {
        &&& self.entries@.len() <= OVERLAY_CACHE_CAPACITY
        &&& forall|i: int, j: int| 0 <= i < j < self.entries@.len()
                ==> (#[trigger] self.entries@[i]).0 != (#[trigger] self.entries@[j]).0
        &&& forall|i: int| 0 <= i < self.entries@.len()
                ==> (#[trigger] self.entries@[i]).1.wf()
    }

    pub open spec fn spec_contains(&self, id: TileId) -> bool {
        exists|i: int| 0 <= i < self.entries@.len() && (#[trigger] self.entries@[i]).0 == id
    }

    pub fn new() -> (r: OverlayCache)
        ensures
            r.wf(),
            r.entries@.len() == 0,
            forall|id: TileId| !(#[trigger] r.spec_contains(id)),
    {
        OverlayCache { entries: Vec::new() }
    }

    /// Linear lookup, handing back a borrow of the cached buffer.
    #[verifier::loop_isolation(false)]
    pub fn get(&self, id: TileId) -> (r: Option<&LoadedTile>)
        requires
            self.wf(),
        ensures
            r.is_some() <==> self.spec_contains(id),
            r.is_some() ==> r.unwrap().wf()
                && exists|i: int| 0 <= i < self.entries@.len()
                    && #[trigger] self.entries@[i] == (id, *r.unwrap()),
    {
        let n = self.entries.len();
        let mut i: usize = 0;
        while i < n
            invariant
                0 <= i <= n,
                n == self.entries@.len(),
                forall|j: int| 0 <= j < i ==> (#[trigger] self.entries@[j]).0 != id,
            decreases n - i,
        {
            if self.entries[i].0 == id {
                return Some(&self.entries[i].1);
            }
            i += 1;
        }
        proof {
            if self.spec_contains(id) {
                let j = choose|j: int| 0 <= j < self.entries@.len()
                    && (#[trigger] self.entries@[j]).0 == id;
                assert((self.entries@[j]).0 != id);
            }
        }
        None
    }

    /// Insert-or-ignore; the buffer is moved in. A full cache drops the
    /// pair and reports failure.
    pub fn insert(&mut self, id: TileId, tile: LoadedTile) -> (r: bool)
        requires
            old(self).wf(),
            tile.wf(),
            !old(self).spec_contains(id),
        ensures
            final(self).wf(),
            r == (old(self).entries@.len() < OVERLAY_CACHE_CAPACITY),
            r ==> final(self).entries@ == old(self).entries@.push((id, tile)),
            !r ==> final(self).entries@ == old(self).entries@,
            final(self).spec_contains(id) == r,
    {
        if self.entries.len() < OVERLAY_CACHE_CAPACITY {
            self.entries.push((id, tile));
            proof {
                let ghost m = final(self).entries@.len() - 1;
                assert(final(self).entries@[m].0 == id);
            }
            true
        } else {
            false
        }
    }
}

/// The second-pass list of overlay placements that had to wait for their
/// base tile: draw order is base before overlay, even when the overlay
/// work happens after the whole screen of bases is placed.
pub struct DeferredList {
    pub entries: Vec<(Point, crate::tile::GenMapTile)>,
}

impl DeferredList {
    pub open spec fn wf(&self) -> bool {
        self.entries@.len() <= DEFERRED_CAPACITY
    }

    pub fn new() -> (r: DeferredList)
        ensures
            r.wf(),
            r.entries@.len() == 0,
    {
        DeferredList { entries: Vec::new() }
    }

    /// Push-or-drop: a full list silently loses the placement, which only
    /// costs the overlay's pixels for this frame, never correctness of
    /// what was drawn.
    pub fn push(&mut self, pos: Point, stack: crate::tile::GenMapTile) -> (r: bool)
        requires
            old(self).wf(),
        ensures
            final(self).wf(),
            r == (old(self).entries@.len() < DEFERRED_CAPACITY),
            r ==> final(self).entries@ == old(self).entries@.push((pos, stack)),
            !r ==> final(self).entries@ == old(self).entries@,
    {
        if self.entries.len() < DEFERRED_CAPACITY {
            self.entries.push((pos, stack));
            true
        } else {
            false
        }
    }
}

} // verus!
