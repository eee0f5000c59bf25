//! Per-viewer chunk streaming: the demand window around a viewer and the
//! bookkeeping that keeps a stationary viewer from re-requesting anything.
use vstd::prelude::*;
use std::collections::HashSet;
use crate::chunk::{spec_pos_key, Chunk, ChunkPos, ChunkStorage, CHUNK_SIZE};
use crate::packet::ServerChunkPacket;

verus! {

broadcast use vstd::std_specs::hash::group_hash_axioms;

/// How many chunks in each direction a zoom level demands.
pub open spec fn spec_radius(zoom: u32) -> int {
    zoom as int / (CHUNK_SIZE as int)
}

/// Whether `p` lies in the square demand window around `center` at `zoom`.
pub open spec fn in_window(center: ChunkPos, zoom: u32, p: ChunkPos) -> bool {
    &&& center.x - spec_radius(zoom) <= p.x <= center.x + spec_radius(zoom)
    &&& center.y - spec_radius(zoom) <= p.y <= center.y + spec_radius(zoom)
}

/// The packed keys of the demand window around `center` at `zoom`.
pub open spec fn window_keys(center: ChunkPos, zoom: u32) -> Set<u64> {
    Set::new(
        |k: u64| exists|p: ChunkPos| in_window(center, zoom, p) && spec_pos_key(p) == k,
    )
}

/// The window keys of the columns strictly left of `hi_x`.
pub open spec fn col_keys(center: ChunkPos, zoom: u32, hi_x: int) -> Set<u64> {
    Set::new(
        |k: u64|
            exists|p: ChunkPos|
                in_window(center, zoom, p) && (p.x as int) < hi_x && #[trigger] spec_pos_key(p)
                    == k,
    )
}

/// The window keys of column `x` strictly below `hi_y`.
pub open spec fn cell_keys(center: ChunkPos, zoom: u32, x: int, hi_y: int) -> Set<u64> {
    Set::new(
        |k: u64|
            exists|p: ChunkPos|
                in_window(center, zoom, p) && p.x as int == x && (p.y as int) < hi_y
                    && #[trigger] spec_pos_key(p) == k,
    )
}

/// Processing the representable cell at offset `(dx, dy)` extends the
/// column's processed keys by exactly that cell's key.
proof fn lemma_cell_keys_step(center: ChunkPos, zoom: u32, dx: int, dy: int, cell: ChunkPos)
    requires
        -spec_radius(zoom) <= dx <= spec_radius(zoom),
        -spec_radius(zoom) <= dy <= spec_radius(zoom),
        cell.x as int == center.x + dx,
        cell.y as int == center.y + dy,
    ensures
        cell_keys(center, zoom, center.x + dx, center.y + dy + 1) =~= cell_keys(
            center,
            zoom,
            center.x + dx,
            center.y + dy,
        ).insert(spec_pos_key(cell)),
{
    let lo = cell_keys(center, zoom, center.x + dx, center.y + dy);
    let hi = cell_keys(center, zoom, center.x + dx, center.y + dy + 1);
    assert(in_window(center, zoom, cell));
    assert forall|k: u64| hi.contains(k) implies lo.insert(spec_pos_key(cell)).contains(k) by {
        let p = choose|p: ChunkPos|
            in_window(center, zoom, p) && p.x as int == center.x + dx && (p.y as int) < center.y
                + dy + 1 && #[trigger] spec_pos_key(p) == k;
        if p.y as int == center.y + dy {
            crate::chunk::lemma_pos_key_injective(p, cell);
        }
    }
    assert forall|k: u64| lo.insert(spec_pos_key(cell)).contains(k) implies hi.contains(k) by {
        if k == spec_pos_key(cell) {
            assert(in_window(center, zoom, cell) && cell.x as int == center.x + dx && (
            cell.y as int) < center.y + dy + 1 && spec_pos_key(cell) == k);
        } else {
            let p = choose|p: ChunkPos|
                in_window(center, zoom, p) && p.x as int == center.x + dx && (p.y as int)
                    < center.y + dy && #[trigger] spec_pos_key(p) == k;
            assert(in_window(center, zoom, p) && p.x as int == center.x + dx && (p.y as int)
                < center.y + dy + 1 && spec_pos_key(p) == k);
        }
    }
}

/// A cell offset that leaves the representable coordinate range adds no key.
proof fn lemma_cell_keys_missing(center: ChunkPos, zoom: u32, dx: int, dy: int)
    requires
        !(i32::MIN <= center.x + dx <= i32::MAX && i32::MIN <= center.y + dy <= i32::MAX),
    ensures
        cell_keys(center, zoom, center.x + dx, center.y + dy + 1) =~= cell_keys(
            center,
            zoom,
            center.x + dx,
            center.y + dy,
        ),
{
    let lo = cell_keys(center, zoom, center.x + dx, center.y + dy);
    let hi = cell_keys(center, zoom, center.x + dx, center.y + dy + 1);
    assert forall|k: u64| hi.contains(k) implies lo.contains(k) by {
        let p = choose|p: ChunkPos|
            in_window(center, zoom, p) && p.x as int == center.x + dx && (p.y as int) < center.y
                + dy + 1 && #[trigger] spec_pos_key(p) == k;
        if p.y as int == center.y + dy {
            assert(i32::MIN <= p.x as int <= i32::MAX && i32::MIN <= p.y as int <= i32::MAX);
            assert(false);
        }
    }
    assert forall|k: u64| lo.contains(k) implies hi.contains(k) by {
        let p = choose|p: ChunkPos|
            in_window(center, zoom, p) && p.x as int == center.x + dx && (p.y as int) < center.y
                + dy && #[trigger] spec_pos_key(p) == k;
        assert(in_window(center, zoom, p) && p.x as int == center.x + dx && (p.y as int) < center.y
            + dy + 1 && spec_pos_key(p) == k);
    }
}

/// Finishing a column folds its cell keys into the processed columns.
proof fn lemma_column_done(center: ChunkPos, zoom: u32, dx: int, radius: int)
    requires
        radius == spec_radius(zoom),
        -radius <= dx <= radius,
    ensures
        col_keys(center, zoom, center.x + dx).union(
            cell_keys(center, zoom, center.x + dx, center.y + radius + 1),
        ) =~= col_keys(center, zoom, center.x + dx + 1),
{
    let a = col_keys(center, zoom, center.x + dx);
    let b = cell_keys(center, zoom, center.x + dx, center.y + radius + 1);
    let c = col_keys(center, zoom, center.x + dx + 1);
    assert forall|k: u64| a.union(b).contains(k) implies c.contains(k) by {
        if a.contains(k) {
            let p = choose|p: ChunkPos|
                in_window(center, zoom, p) && (p.x as int) < center.x + dx && #[trigger] spec_pos_key(
                    p,
                ) == k;
            assert(in_window(center, zoom, p) && (p.x as int) < center.x + dx + 1 && spec_pos_key(p)
                == k);
        } else {
            let p = choose|p: ChunkPos|
                in_window(center, zoom, p) && p.x as int == center.x + dx && (p.y as int) < center.y
                    + radius + 1 && #[trigger] spec_pos_key(p) == k;
            assert(in_window(center, zoom, p) && (p.x as int) < center.x + dx + 1 && spec_pos_key(p)
                == k);
        }
    }
    assert forall|k: u64| c.contains(k) implies a.union(b).contains(k) by {
        let p = choose|p: ChunkPos|
            in_window(center, zoom, p) && (p.x as int) < center.x + dx + 1 && #[trigger] spec_pos_key(
                p,
            ) == k;
        if p.x as int == center.x + dx {
            assert((p.y as int) < center.y + radius + 1);
            assert(b.contains(k));
        } else {
            assert(a.contains(k));
        }
    }
}

/// Processing every column covers exactly the window.
proof fn lemma_window_done(center: ChunkPos, zoom: u32, radius: int)
    requires
        radius == spec_radius(zoom),
    ensures
        col_keys(center, zoom, center.x + radius + 1) =~= window_keys(center, zoom),
{
    let a = col_keys(center, zoom, center.x + radius + 1);
    let w = window_keys(center, zoom);
    assert forall|k: u64| a.contains(k) implies w.contains(k) by {
        let p = choose|p: ChunkPos|
            in_window(center, zoom, p) && (p.x as int) < center.x + radius + 1
                && #[trigger] spec_pos_key(p) == k;
        assert(in_window(center, zoom, p) && spec_pos_key(p) == k);
    }
    assert forall|k: u64| w.contains(k) implies a.contains(k) by {
        let p = choose|p: ChunkPos| in_window(center, zoom, p) && #[trigger] spec_pos_key(p) == k;
        assert((p.x as int) < center.x + radius + 1);
    }
}

/// The last well-formed chunk a `Provide` list carries under key `k`, if
/// any: what intake stores there, later entries overwriting earlier ones.
pub open spec fn provided_at(pairs: Seq<(ChunkPos, Chunk)>, k: u64) -> Option<Chunk>
    decreases pairs.len(),
{
    if pairs.len() == 0 {
        None
    } else if pairs.last().1.wf() && spec_pos_key(pairs.last().0) == k {
        Some(pairs.last().1)
    } else {
        provided_at(pairs.drop_last(), k)
    }
}

/// One viewer's chunk streaming state: the chunks it holds, the positions it
/// has already asked for, and the window it last computed.
pub struct ChunkHandler {
    storage: ChunkStorage,
    stored: HashSet<u64>,
    old_chunk: ChunkPos,
    old_zoom: u32,
    dirty: bool,
}

impl ChunkHandler {
    /// The chunks this viewer holds.
    pub closed spec fn resident(&self) -> Map<u64, Chunk> {
        self.storage.resident()
    }

    /// The positions this viewer has requested or received: never asked for
    /// twice.
    pub closed spec fn known(&self) -> Set<u64> {
        self.stored@
    }

    /// The viewer chunk the window was last computed for.
    pub closed spec fn viewer(&self) -> ChunkPos {
        self.old_chunk
    }

    /// The zoom the window was last computed for.
    pub closed spec fn zoom(&self) -> u32 {
        self.old_zoom
    }

    /// Whether the next tick must recompute the window even if the viewer
    /// did not move.
    pub closed spec fn dirty_flag(&self) -> bool {
        self.dirty
    }

    pub closed spec fn wf(&self) -> bool {
        self.storage.wf()
    }

    pub fn new() -> (r: ChunkHandler)
        ensures
            r.wf(),
            r.resident() == Map::<u64, Chunk>::empty(),
            r.known() == Set::<u64>::empty(),
            r.dirty_flag(),
    {
        ChunkHandler {
            storage: ChunkStorage::new(),
            stored: HashSet::new(),
            old_chunk: ChunkPos { x: 0, y: 0 },
            old_zoom: 0,
            dirty: true,
        }
    }

    /// Forces the next tick to recompute the window.
    pub fn mark_dirty(&mut self)
        requires
            old(self).wf(),
        ensures
            final(self).wf(),
            final(self).dirty_flag(),
            final(self).resident() == old(self).resident(),
            final(self).known() == old(self).known(),
            final(self).viewer() == old(self).viewer(),
            final(self).zoom() == old(self).zoom(),
    {
        self.dirty = true;
    }

    /// Stores the chunks of a `Provide` packet and marks their positions
    /// known, so they are never re-requested.
    pub fn packet(&mut self, packet: ServerChunkPacket)
        requires
            old(self).wf(),
        ensures
            final(self).wf(),
            final(self).viewer() == old(self).viewer(),
            final(self).zoom() == old(self).zoom(),
            final(self).dirty_flag() == old(self).dirty_flag(),
            packet matches ServerChunkPacket::Provide(pairs) ==> {
                &&& forall|k: u64|
                    (#[trigger] provided_at(pairs@, k)) matches Some(c)
                        ==> final(self).resident().contains_key(k) && final(self).resident()[k]
                        == c && final(self).known().contains(k)
                &&& forall|k: u64|
                    (#[trigger] provided_at(pairs@, k)) is None ==> (final(self).resident()
                        .contains_key(k) <==> old(self).resident().contains_key(k)) && (old(self)
                        .resident().contains_key(k) ==> final(self).resident()[k]
                        == old(self).resident()[k]) && (final(self).known().contains(k)
                        <==> old(self).known().contains(k))
            },
    {
        match packet {
            ServerChunkPacket::Provide(pairs) => {
                let ghost all = pairs@;
                let n = pairs.len();
                let mut pairs = pairs;
                let mut i: usize = 0;
                while i < n
                    invariant
                        n == all.len(),
                        0 <= i <= n,
                        pairs@ == all.subrange(i as int, n as int),
                        self.wf(),
                        self.old_chunk == old(self).old_chunk,
                        self.old_zoom == old(self).old_zoom,
                        self.dirty == old(self).dirty,
                        forall|k: u64|
                            (#[trigger] provided_at(all.subrange(0, i as int), k)) matches Some(c)
                                ==> self.resident().contains_key(k) && self.resident()[k] == c
                                && self.known().contains(k),
                        forall|k: u64|
                            (#[trigger] provided_at(all.subrange(0, i as int), k)) is None ==> (
                            self.resident().contains_key(k) <==> old(
                                self,
                            ).resident().contains_key(k)) && (old(self).resident().contains_key(k)
                                ==> self.resident()[k] == old(self).resident()[k]) && (self.known()
                                .contains(k) <==> old(self).known().contains(k)),
                    decreases n - i,
                {
                    let ghost prefix = all.subrange(0, i as int);
                    let (pos, chunk) = pairs.remove(0);
                    proof {
                        assert((pos, chunk) == all[i as int]);
                        assert(all.subrange(i as int, n as int).remove(0) =~= all.subrange(
                            i + 1 as int,
                            n as int,
                        ));
                        assert(all.subrange(0, i + 1 as int).drop_last() =~= prefix);
                        assert(all.subrange(0, i + 1 as int).last() == all[i as int]);
                    }
                    let ghost known0 = self.known();
                    let ghost res0 = self.resident();
                    let ghost chunk0 = chunk;
                    let wf_chunk = chunk.is_well_formed();
                    if wf_chunk {
                        self.storage.put_chunk(pos, chunk);
                        self.stored.insert(pos.key());
                    }
                    proof {
                        let next = all.subrange(0, i + 1 as int);
                        if wf_chunk {
                            assert(self.known() == known0.insert(spec_pos_key(pos)));
                            assert(self.resident() == res0.insert(spec_pos_key(pos), chunk0));
                        } else {
                            assert(self.known() == known0 && self.resident() == res0);
                        }
                        assert forall|k: u64| #[trigger] provided_at(next, k) == (if wf_chunk && k
                            == spec_pos_key(pos) {
                            Some(chunk0)
                        } else {
                            provided_at(prefix, k)
                        }) by {
                            assert(next.drop_last() =~= prefix);
                        }
                    }
                    i = i + 1;
                }
                proof {
                    assert(all.subrange(0, n as int) =~= all);
                }
            },
        }
    }

    /// One streaming step for a viewer standing in chunk `viewer` at `zoom`.
    ///
    /// A viewer stationary in the same chunk at the same zoom with no dirty
    /// flag issues no request and changes nothing. Otherwise the window is
    /// recomputed, and exactly the window positions not already known are
    /// requested, each once; every window position is known afterwards.
    pub fn tick(&mut self, viewer: ChunkPos, zoom: u32) -> (r: Vec<ChunkPos>)
        requires
            old(self).wf(),
        ensures
            final(self).wf(),
            final(self).resident() == old(self).resident(),
            viewer == old(self).viewer() && zoom == old(self).zoom() && !old(self).dirty_flag()
                ==> r@.len() == 0 && *final(self) == *old(self),
            !(viewer == old(self).viewer() && zoom == old(self).zoom() && !old(
                self,
            ).dirty_flag()) ==> {
                &&& forall|i: int|
                    0 <= i < r@.len() ==> in_window(viewer, zoom, (#[trigger] r@[i]))
                        && !old(self).known().contains(spec_pos_key(r@[i]))
                &&& forall|i: int, j: int|
                    0 <= i < j < r@.len() ==> spec_pos_key(#[trigger] r@[i]) != spec_pos_key(
                        #[trigger] r@[j],
                    )
                &&& forall|p: ChunkPos|
                    in_window(viewer, zoom, p) && !old(self).known().contains(spec_pos_key(p))
                        ==> r@.contains(p)
                &&& final(self).known() == old(self).known().union(window_keys(viewer, zoom))
                &&& final(self).viewer() == viewer
                &&& final(self).zoom() == zoom
                &&& !final(self).dirty_flag()
            },
    {
        if viewer.x == self.old_chunk.x && viewer.y == self.old_chunk.y && zoom == self.old_zoom
            && !self.dirty {
            return Vec::new();
        }
        let radius: i64 = (zoom / (CHUNK_SIZE as u32)) as i64;
        let ghost pre = *self;
        let mut requested: Vec<ChunkPos> = Vec::new();
        let mut dx: i64 = -radius;
        while dx <= radius
            invariant
                radius == spec_radius(zoom),
                -radius <= dx <= radius + 1,
                self.storage == pre.storage,
                self.old_chunk == pre.old_chunk,
                self.old_zoom == pre.old_zoom,
                self.dirty == pre.dirty,
                pre.wf(),
                forall|i: int|
                    0 <= i < requested@.len() ==> in_window(viewer, zoom, (#[trigger] requested@[i]))
                        && !pre.known().contains(spec_pos_key(requested@[i])),
                forall|i: int|
                    0 <= i < requested@.len() ==> self.known().contains(
                        spec_pos_key(#[trigger] requested@[i]),
                    ),
                forall|i: int, j: int|
                    0 <= i < j < requested@.len() ==> spec_pos_key(#[trigger] requested@[i])
                        != spec_pos_key(#[trigger] requested@[j]),
                self.known() == pre.known().union(col_keys(viewer, zoom, viewer.x + dx)),
                forall|p: ChunkPos|
                    in_window(viewer, zoom, p) && (p.x as int) < viewer.x + dx && !pre.known()
                        .contains(spec_pos_key(p)) ==> requested@.contains(p),
            decreases radius + 1 - dx,
        {
            let mut dy: i64 = -radius;
            while dy <= radius
                invariant
                    radius == spec_radius(zoom),
                    -radius <= dx <= radius,
                    -radius <= dy <= radius + 1,
                    self.storage == pre.storage,
                    self.old_chunk == pre.old_chunk,
                    self.old_zoom == pre.old_zoom,
                    self.dirty == pre.dirty,
                    pre.wf(),
                    forall|i: int|
                        0 <= i < requested@.len() ==> in_window(
                            viewer,
                            zoom,
                            (#[trigger] requested@[i]),
                        ) && !pre.known().contains(spec_pos_key(requested@[i])),
                    forall|i: int|
                        0 <= i < requested@.len() ==> self.known().contains(
                            spec_pos_key(#[trigger] requested@[i]),
                        ),
                    forall|i: int, j: int|
                        0 <= i < j < requested@.len() ==> spec_pos_key(#[trigger] requested@[i])
                            != spec_pos_key(#[trigger] requested@[j]),
                    self.known() == pre.known().union(col_keys(viewer, zoom, viewer.x + dx)).union(
                        cell_keys(viewer, zoom, viewer.x + dx, viewer.y + dy),
                    ),
                    forall|p: ChunkPos|
                        in_window(viewer, zoom, p) && ((p.x as int) < viewer.x + dx || (p.x as int
                            == viewer.x + dx && (p.y as int) < viewer.y + dy)) && !pre.known()
                            .contains(spec_pos_key(p)) ==> requested@.contains(p),
                decreases radius + 1 - dy,
            {
                let ghost known0 = self.known();
                let ghost req0 = requested@;
                let dx32 = dx as i32;
                let dy32 = dy as i32;
                match viewer.checked_offset(dx32, dy32) {
                    Some(cell) => {
                        proof {
                            assert(cell.x as int == viewer.x + dx && cell.y as int == viewer.y
                                + dy);
                            assert(in_window(viewer, zoom, cell));
                        }
                        let key = cell.key();
                        if !self.stored.contains(&key) {
                            proof {
                                assert(!pre.known().contains(spec_pos_key(cell)));
                                assert forall|i: int|
                                    0 <= i < req0.len() implies spec_pos_key(#[trigger] req0[i])
                                    != spec_pos_key(cell) by {
                                    assert(known0.contains(spec_pos_key(req0[i])));
                                }
                            }
                            requested.push(cell);
                        }
                        self.stored.insert(key);
                        proof {
                            assert(self.known() == known0.insert(spec_pos_key(cell)));
                            lemma_cell_keys_step(viewer, zoom, dx as int, dy as int, cell);
                            assert(self.known() =~= pre.known().union(
                                col_keys(viewer, zoom, viewer.x + dx),
                            ).union(cell_keys(viewer, zoom, viewer.x + dx, viewer.y + dy + 1)));
                            assert forall|p: ChunkPos|
                                in_window(viewer, zoom, p) && ((p.x as int) < viewer.x + dx || (
                                p.x as int == viewer.x + dx && (p.y as int) < viewer.y + dy + 1))
                                    && !pre.known().contains(
                                    spec_pos_key(p),
                                ) implies requested@.contains(p) by {
                                if p.x as int == viewer.x + dx && p.y as int == viewer.y + dy {
                                    crate::chunk::lemma_pos_key_injective(p, cell);
                                    if !known0.contains(spec_pos_key(cell)) {
                                        assert(requested@[requested@.len() - 1] == cell);
                                    } else {
                                        assert(col_keys(viewer, zoom, viewer.x + dx).contains(
                                            spec_pos_key(cell),
                                        ) || cell_keys(
                                            viewer,
                                            zoom,
                                            viewer.x + dx,
                                            viewer.y + dy,
                                        ).contains(spec_pos_key(cell)));
                                        if col_keys(viewer, zoom, viewer.x + dx).contains(
                                            spec_pos_key(cell),
                                        ) {
                                            let q = choose|q: ChunkPos|
                                                in_window(viewer, zoom, q) && (q.x as int)
                                                    < viewer.x + dx && #[trigger] spec_pos_key(q)
                                                    == spec_pos_key(cell);
                                            crate::chunk::lemma_pos_key_injective(q, cell);
                                        } else {
                                            let q = choose|q: ChunkPos|
                                                in_window(viewer, zoom, q) && q.x as int == viewer.x
                                                    + dx && (q.y as int) < viewer.y + dy
                                                    && #[trigger] spec_pos_key(q) == spec_pos_key(
                                                    cell,
                                                );
                                            crate::chunk::lemma_pos_key_injective(q, cell);
                                        }
                                    }
                                } else {
                                    assert(requested@ == req0 || requested@ == req0.push(cell));
                                    assert(req0.contains(p));
                                    let w = choose|w: int| 0 <= w < req0.len() && req0[w] == p;
                                    assert(requested@[w] == p);
                                }
                            }
                        }
                    },
                    None => {
                        proof {
                            assert(!(i32::MIN <= viewer.x + dx <= i32::MAX && i32::MIN <= viewer.y
                                + dy <= i32::MAX));
                            lemma_cell_keys_missing(viewer, zoom, dx as int, dy as int);
                            assert forall|p: ChunkPos|
                                in_window(viewer, zoom, p) && ((p.x as int) < viewer.x + dx || (
                                p.x as int == viewer.x + dx && (p.y as int) < viewer.y + dy + 1))
                                    && !pre.known().contains(
                                    spec_pos_key(p),
                                ) implies requested@.contains(p) by {
                                if p.x as int == viewer.x + dx && p.y as int == viewer.y + dy {
                                    assert(i32::MIN <= p.x as int <= i32::MAX && i32::MIN
                                        <= p.y as int <= i32::MAX);
                                    assert(false);
                                }
                            }
                        }
                    },
                }
                dy = dy + 1;
            }
            proof {
                lemma_column_done(viewer, zoom, dx as int, radius as int);
                assert(self.known() =~= pre.known().union(
                    col_keys(viewer, zoom, viewer.x + dx + 1),
                ));
                assert forall|p: ChunkPos|
                    in_window(viewer, zoom, p) && (p.x as int) < viewer.x + dx + 1 && !pre.known()
                        .contains(spec_pos_key(p)) implies requested@.contains(p) by {
                    if p.x as int == viewer.x + dx {
                        assert((p.y as int) < viewer.y + radius + 1);
                    }
                }
            }
            dx = dx + 1;
        }
        self.old_chunk = viewer;
        self.old_zoom = zoom;
        self.dirty = false;
        proof {
            lemma_window_done(viewer, zoom, radius as int);
            assert(self.known() =~= pre.known().union(window_keys(viewer, zoom)));
            assert forall|p: ChunkPos|
                in_window(viewer, zoom, p) && !pre.known().contains(
                    spec_pos_key(p),
                ) implies requested@.contains(p) by {
                assert((p.x as int) < viewer.x + radius + 1);
            }
        }
        requested
    }

    /// The resident chunk at `pos`, if this viewer holds one.
    pub fn get_chunk(&self, pos: ChunkPos) -> (r: Option<&Chunk>)
        ensures
            r matches Some(c) ==> self.resident().contains_key(spec_pos_key(pos)) && *c
                == self.resident()[spec_pos_key(pos)],
            r is None ==> !self.resident().contains_key(spec_pos_key(pos)),
    {
        self.storage.get_chunk(pos)
    }

    /// Drops every held chunk on a content reload; the known set stays, the
    /// window is recomputed on the next tick.
    pub fn reload(&mut self)
        ensures
            final(self).wf(),
            final(self).resident() == Map::<u64, Chunk>::empty(),
            final(self).dirty_flag(),
    {
        self.storage.clear();
        self.dirty = true;
    }
}

} // verus!
