//! The sparse canvas: a map from integer chart coordinates to pool tiles.
//!
//! A chart is one fixed-size square region of the unbounded canvas, backed
//! by one pool tile. A chart is created the first time its key is
//! requested — its metadata is initialized from the key's chart-to-canvas
//! transform and its texture is cleared — and it is never removed for the
//! lifetime of the atlas.

use std::collections::HashMap;

use vstd::prelude::*;

use crate::fixed::{v2_wf, Fx, Vec2Fx};
use crate::geom::AABox;
use crate::raster::{cell_of, floor_cell, tri_covers, triangle_cells};
use crate::tile::{
    free_contains, pool_wf, tile_index_valid, Extent2d, Pool, TextureLayerDescriptor, Tile,
    TileIndex,
};

verus! {

broadcast use vstd::std_specs::hash::group_hash_axioms;

/// Side length of one chart's texture, in pixels; one canvas unit is one
/// pixel, so a chart spans this many canvas units.
pub const CHART_SIZE: u32 = 256;

/// Width of one chart in raw fixed-point bits.
pub const CHART_SCALE_BITS: i64 = 0x100_0000;

/// Integer chart coordinate: the canvas position divided by the chart
/// size, rounded down.
#[derive(Clone, Copy, PartialEq, Eq, Structural, Debug, Hash)]
pub struct ChartKey(pub i32, pub i32);

/// The 64-bit code a chart key is stored under: both coordinates' bit
/// patterns, side by side.
pub open spec fn key_code_spec(k: ChartKey) -> u64 {
    ((k.0 as u32 as u64) << 32u64) | (k.1 as u32 as u64)
}

/// Executable form of [`key_code_spec`].
fn key_code(k: ChartKey) -> (r: u64)
    ensures
        r == key_code_spec(k),
{
    ((k.0 as u32 as u64) << 32u64) | (k.1 as u32 as u64)
}

/// Distinct keys get distinct codes.
pub proof fn lemma_key_code_injective(k1: ChartKey, k2: ChartKey)
    requires
        key_code_spec(k1) == key_code_spec(k2),
    ensures
        k1 == k2,
{
    let a1 = k1.0;
    let b1 = k1.1;
    let a2 = k2.0;
    let b2 = k2.1;
    assert(((a1 as u32 as u64) << 32u64) | (b1 as u32 as u64) == ((a2 as u32 as u64) << 32u64) | (
    b2 as u32 as u64) ==> a1 == a2 && b1 == b2) by (bit_vector);
}

/// `s` has a key equal to `(x, y)`.
pub open spec fn keys_contain(s: Seq<ChartKey>, x: int, y: int) -> bool {
    exists|k: int| 0 <= k < s.len() && s[k].0 == x && s[k].1 == y
}

impl ChartKey {
    /// The key of the chart containing a canvas point.
    pub fn find_containing(p: Vec2Fx) -> (r: ChartKey)
        requires
            v2_wf(p),
        ensures
            r.0 == cell_of(p.x.bits as int, CHART_SCALE_BITS as int),
            r.1 == cell_of(p.y.bits as int, CHART_SCALE_BITS as int),
    {
        ChartKey(floor_cell(p.x, CHART_SCALE_BITS), floor_cell(p.y, CHART_SCALE_BITS))
    }

    /// The keys of every chart that meets an axis-aligned box, row-major
    /// from the box's minimum corner.
    pub fn find_intersecting(shape: &AABox) -> (r: Vec<ChartKey>)
        requires
            v2_wf(shape.min),
            v2_wf(shape.max),
        ensures
            ({
                let x0 = cell_of(shape.min.x.bits as int, CHART_SCALE_BITS as int);
                let y0 = cell_of(shape.min.y.bits as int, CHART_SCALE_BITS as int);
                let x1 = cell_of(shape.max.x.bits as int, CHART_SCALE_BITS as int);
                let y1 = cell_of(shape.max.y.bits as int, CHART_SCALE_BITS as int);
                if x0 <= x1 && y0 <= y1 {
                    &&& r@.len() == (x1 - x0 + 1) * (y1 - y0 + 1)
                    &&& forall|k: int|
                        0 <= k < r@.len() ==> #[trigger] r@[k] == (ChartKey(
                            (x0 + k / (y1 - y0 + 1)) as i32,
                            (y0 + k % (y1 - y0 + 1)) as i32,
                        ))
                } else {
                    r@.len() == 0
                }
            }),
    {
        let kmin = ChartKey::find_containing(shape.min);
        let kmax = ChartKey::find_containing(shape.max);
        let mut r: Vec<ChartKey> = Vec::new();
        if kmin.0 > kmax.0 || kmin.1 > kmax.1 {
            return r;
        }
        let ny: i64 = (kmax.1 as i64) - (kmin.1 as i64) + 1;
        let nx: i64 = (kmax.0 as i64) - (kmin.0 as i64) + 1;
        let mut i: i64 = 0;
        while i < nx
            invariant
                0 <= i <= nx,
                nx == kmax.0 - kmin.0 + 1,
                ny == kmax.1 - kmin.1 + 1,
                nx >= 1,
                ny >= 1,
                -0x200_0000 <= kmin.0 <= 0x200_0000,
                -0x200_0000 <= kmin.1 <= 0x200_0000,
                -0x200_0000 <= kmax.0 <= 0x200_0000,
                -0x200_0000 <= kmax.1 <= 0x200_0000,
                r@.len() == i * ny,
                forall|k: int|
                    0 <= k < r@.len() ==> #[trigger] r@[k] == (ChartKey(
                        ((kmin.0 as int) + k / (ny as int)) as i32,
                        ((kmin.1 as int) + k % (ny as int)) as i32,
                    )),
            decreases nx - i,
        {
            let mut j: i64 = 0;
            proof {
                assert(i * ny + ny == (i + 1) * ny) by (nonlinear_arith);
                assert((i + 1) * ny <= nx * ny) by (nonlinear_arith)
                    requires
                        i + 1 <= nx,
                        ny >= 1,
                ;
                assert(nx * ny <= 0x401_0000 * 0x401_0000) by (nonlinear_arith)
                    requires
                        1 <= nx <= 0x401_0000,
                        1 <= ny <= 0x401_0000,
                ;
            }
            while j < ny
                invariant
                    0 <= j <= ny,
                    0 <= i < nx,
                    nx == kmax.0 - kmin.0 + 1,
                    ny == kmax.1 - kmin.1 + 1,
                    ny >= 1,
                    -0x200_0000 <= kmin.0 <= 0x200_0000,
                    -0x200_0000 <= kmin.1 <= 0x200_0000,
                    -0x200_0000 <= kmax.0 <= 0x200_0000,
                    -0x200_0000 <= kmax.1 <= 0x200_0000,
                    i * ny + ny <= 0x401_0000 * 0x401_0000,
                    i * ny >= 0,
                    r@.len() == i * ny + j,
                    forall|k: int|
                        0 <= k < r@.len() ==> #[trigger] r@[k] == (ChartKey(
                            ((kmin.0 as int) + k / (ny as int)) as i32,
                            ((kmin.1 as int) + k % (ny as int)) as i32,
                        )),
                decreases ny - j,
            {
                let key = ChartKey(kmin.0 + (i as i32), kmin.1 + (j as i32));
                r.push(key);
                proof {
                    let k0 = i * ny + j;
                    vstd::arithmetic::div_mod::lemma_fundamental_div_mod_converse_div(
                        k0,
                        ny as int,
                        i as int,
                        j as int,
                    );
                    vstd::arithmetic::div_mod::lemma_fundamental_div_mod_converse_mod(
                        k0,
                        ny as int,
                        i as int,
                        j as int,
                    );
                    assert(k0 == (i as int) * (ny as int) + (j as int));
                    assert(r@[k0] == (ChartKey(((kmin.0 as int) + k0 / (ny as int)) as i32, ((kmin.1 as int) + k0
                        % (ny as int)) as i32)));
                }
                j = j + 1;
            }
            i = i + 1;
        }
        proof {
            assert(r@.len() == nx * ny);
        }
        r
    }

    /// The keys of every chart conservatively covered by a triangle.
    pub fn find_covering(a: Vec2Fx, b: Vec2Fx, c: Vec2Fx) -> (r: Vec<ChartKey>)
        requires
            v2_wf(a),
            v2_wf(b),
            v2_wf(c),
        ensures
            forall|t: int|
                0 <= t < r@.len() ==> tri_covers(
                    a,
                    b,
                    c,
                    CHART_SCALE_BITS as int,
                    (#[trigger] r@[t]).0 as int,
                    r@[t].1 as int,
                ),
            forall|x: int, y: int|
                tri_covers(a, b, c, CHART_SCALE_BITS as int, x, y) ==> keys_contain(r@, x, y),
    {
        let cells = triangle_cells(a, b, c, CHART_SCALE_BITS);
        let mut r: Vec<ChartKey> = Vec::new();
        let mut k: usize = 0;
        while k < cells.len()
            invariant
                0 <= k <= cells@.len(),
                r@.len() == k,
                forall|t: int|
                    0 <= t < cells@.len() ==> tri_covers(
                        a,
                        b,
                        c,
                        CHART_SCALE_BITS as int,
                        (#[trigger] cells@[t]).0 as int,
                        cells@[t].1 as int,
                    ),
                forall|x: int, y: int|
                    tri_covers(a, b, c, CHART_SCALE_BITS as int, x, y) ==> crate::raster::cells_contain(
                        cells@,
                        x,
                        y,
                    ),
                forall|t: int|
                    0 <= t < k ==> #[trigger] r@[t] == (ChartKey(cells@[t].0, cells@[t].1)),
            decreases cells@.len() - k,
        {
            let cell = cells[k];
            r.push(ChartKey(cell.0, cell.1));
            k = k + 1;
        }
        proof {
            assert forall|x: int, y: int|
                tri_covers(a, b, c, CHART_SCALE_BITS as int, x, y) implies keys_contain(
                r@,
                x,
                y,
            ) by {
                assert(crate::raster::cells_contain(cells@, x, y));
                let w = choose|t: int|
                    0 <= t < cells@.len() && cells@[t].0 == x && cells@[t].1 == y;
                assert(r@[w] == (ChartKey(cells@[w].0, cells@[w].1)));
            }
        }
        r
    }

    /// The chart-to-canvas transform of this chart: a uniform scale by the
    /// chart size and a translation to the chart's corner.
    pub fn chart_to_canvas_scale_and_translation(&self) -> (r: (Vec2Fx, Vec2Fx))
        requires
            -0x1_0000 <= self.0 <= 0x1_0000,
            -0x1_0000 <= self.1 <= 0x1_0000,
        ensures
            r.0.x.bits == 256 * 65536 && r.0.y.bits == 256 * 65536,
            r.1.x.bits == self.0 * CHART_SCALE_BITS,
            r.1.y.bits == self.1 * CHART_SCALE_BITS,
    {
        let scale = Vec2Fx { x: Fx { bits: 256 * 65536 }, y: Fx { bits: 256 * 65536 } };
        let translation = Vec2Fx {
            x: Fx { bits: (self.0 as i64) * CHART_SCALE_BITS },
            y: Fx { bits: (self.1 as i64) * CHART_SCALE_BITS },
        };
        (scale, translation)
    }
}

/// The per-tile metadata record: the chart-to-canvas transform.
#[derive(Clone, Copy, PartialEq, Eq, Structural, Debug)]
pub struct TileData {
    pub chart_to_canvas_scale: Vec2Fx,
    pub chart_to_canvas_translation: Vec2Fx,
}

/// One chart: a pool tile bound to a chart key.
pub struct Chart {
    tile: Tile,
}

impl Chart {
    /// The pool index of this chart's tile.
    pub closed spec fn spec_tile(self) -> TileIndex {
        self.tile.spec_index()
    }

    /// The tile backing this chart.
    pub fn tile(&self) -> (r: &Tile)
        ensures
            r.spec_index() == self.spec_tile(),
    {
        &self.tile
    }
}

/// The atlas: lazily created charts over a shared tile pool.
pub struct Atlas {
    tile_pool: Pool<TileData>,
    keys: Vec<u64>,
    charts: Vec<Chart>,
    map: HashMap<u64, usize>,
}

impl Atlas {
    /// The tile pool backing this atlas.
    pub closed spec fn spec_pool(self) -> Pool<TileData> {
        self.tile_pool
    }

    /// The key codes of the charts, in creation order.
    pub closed spec fn spec_keys(self) -> Seq<u64> {
        self.keys@
    }

    /// The tile indices of the charts, in creation order.
    pub closed spec fn spec_tiles(self) -> Seq<TileIndex> {
        self.charts@.map_values(|c: Chart| c.spec_tile())
    }

    /// The key-to-position map.
    pub closed spec fn spec_map(self) -> Map<u64, usize> {
        self.map@
    }

    /// Whether a chart exists for `key`.
    pub open spec fn has_chart(self, key: ChartKey) -> bool {
        self.spec_map().contains_key(key_code_spec(key))
    }
}

/// Atlas invariant: the pool is well-formed; the map indexes exactly the
/// created charts; every chart holds a distinct, live pool tile.
pub open spec fn atlas_wf(a: Atlas) -> bool {
    &&& pool_wf(a.spec_pool())
    &&& a.spec_pool().spec_descriptor().size.width == CHART_SIZE
    &&& a.spec_pool().spec_descriptor().size.height == CHART_SIZE
    &&& a.spec_keys().len() == a.spec_tiles().len()
    &&& forall|i: int|
        0 <= i < a.spec_keys().len() ==> a.spec_map().contains_key(#[trigger] a.spec_keys()[i])
            && a.spec_map()[a.spec_keys()[i]] == i
    &&& forall|k: u64|
        a.spec_map().contains_key(k) ==> 0 <= #[trigger] a.spec_map()[k] < a.spec_keys().len()
            && a.spec_keys()[a.spec_map()[k] as int] == k
    &&& forall|i: int|
        0 <= i < a.spec_tiles().len() ==> tile_index_valid(
            a.spec_pool(),
            #[trigger] a.spec_tiles()[i],
        ) && !free_contains(a.spec_pool(), a.spec_tiles()[i])
    &&& forall|i: int, j: int|
        0 <= i < j < a.spec_tiles().len() ==> a.spec_tiles()[i] != a.spec_tiles()[j]
}

impl Atlas {
    /// An empty atlas over a fresh pool of chart-sized tiles, for a device
    /// allowing `max_array_layers` layers per texture array.
    pub fn new(max_array_layers: u32) -> (r: Atlas)
        requires
            max_array_layers >= 1,
        ensures
            atlas_wf(r),
            r.spec_keys().len() == 0,
            r.spec_pool().block_count() == 0,
            r.spec_pool().spec_max_layers() == max_array_layers,
            r.spec_pool().spec_descriptor().size.width == CHART_SIZE,
            r.spec_pool().spec_descriptor().size.height == CHART_SIZE,
    {
        let descriptor = TextureLayerDescriptor {
            size: Extent2d { width: CHART_SIZE, height: CHART_SIZE },
            mip_level_count: 1,
            sample_count: 1,
        };
        let r = Atlas {
            tile_pool: Pool::new(descriptor, max_array_layers),
            keys: Vec::new(),
            charts: Vec::new(),
            map: HashMap::new(),
        };
        proof {
            assert(r.spec_tiles() =~= Seq::<TileIndex>::empty());
        }
        r
    }

    /// Number of charts created so far.
    pub fn chart_count(&self) -> (r: usize)
        requires
            atlas_wf(*self),
        ensures
            r == self.spec_keys().len(),
    {
        self.charts.len()
    }

    /// The charts, in creation order.
    pub fn charts(&self) -> (r: &Vec<Chart>)
        ensures
            r@.map_values(|c: Chart| c.spec_tile()) == self.spec_tiles(),
            r@.len() == self.spec_tiles().len(),
    {
        &self.charts
    }

    /// The chart at a creation index.
    pub fn chart_at(&self, i: usize) -> (r: &Chart)
        requires
            atlas_wf(*self),
            i < self.spec_keys().len(),
        ensures
            r.spec_tile() == self.spec_tiles()[i as int],
    {
        proof {
            assert(self.spec_tiles()[i as int] == self.charts@[i as int].spec_tile());
        }
        &self.charts[i]
    }

    /// The pool backing this atlas, for reading tile data and content.
    pub fn pool(&self) -> (r: &Pool<TileData>)
        ensures
            *r == self.spec_pool(),
    {
        &self.tile_pool
    }

    /// The creation index of the chart for `key`. On the first request for
    /// a key, a tile is allocated from the pool, its metadata record is set
    /// to the key's chart-to-canvas transform, and its texture is cleared
    /// to transparent; later requests return the same chart.
    pub fn get_chart_mut(&mut self, key: ChartKey) -> (i: usize)
        requires
            atlas_wf(*old(self)),
            -0x1_0000 <= key.0 <= 0x1_0000,
            -0x1_0000 <= key.1 <= 0x1_0000,
        ensures
            atlas_wf(*final(self)),
            final(self).has_chart(key),
            i < final(self).spec_keys().len(),
            i == final(self).spec_map()[key_code_spec(key)] as int,
            old(self).has_chart(key) ==> {
                &&& i == old(self).spec_map()[key_code_spec(key)] as int
                &&& final(self).spec_keys() == old(self).spec_keys()
                &&& final(self).spec_tiles() == old(self).spec_tiles()
                &&& final(self).spec_map() == old(self).spec_map()
                &&& crate::tile::blocks_extended(old(self).spec_pool(), final(self).spec_pool(), 0)
                &&& final(self).spec_pool().free() == old(self).spec_pool().free()
                &&& crate::tile::slots_unchanged(old(self).spec_pool(), final(self).spec_pool())
            },
            !old(self).has_chart(key) ==> {
                let t = final(self).spec_tiles()[i as int];
                &&& i == old(self).spec_keys().len()
                &&& final(self).spec_keys() == old(self).spec_keys().push(key_code_spec(key))
                &&& final(self).spec_tiles() == old(self).spec_tiles().push(t)
                &&& final(self).spec_map() == old(self).spec_map().insert(
                    key_code_spec(key),
                    i,
                )
                &&& final(self).spec_pool().data_at(
                    t.block_index as int,
                    t.layer_index as int,
                ) == Some(
                    TileData {
                        chart_to_canvas_scale: Vec2Fx {
                            x: Fx { bits: CHART_SCALE_BITS },
                            y: Fx { bits: CHART_SCALE_BITS },
                        },
                        chart_to_canvas_translation: Vec2Fx {
                            x: Fx { bits: ((key.0 as int) * (CHART_SCALE_BITS as int)) as i64 },
                            y: Fx { bits: ((key.1 as int) * (CHART_SCALE_BITS as int)) as i64 },
                        },
                    },
                )
                &&& final(self).spec_pool().content_at(
                    t.block_index as int,
                    t.layer_index as int,
                ).len() == 8 * 256 * 256
                &&& forall|b: int|
                    0 <= b < final(self).spec_pool().content_at(
                        t.block_index as int,
                        t.layer_index as int,
                    ).len() ==> final(self).spec_pool().content_at(
                        t.block_index as int,
                        t.layer_index as int,
                    )[b] == 0u8
                &&& crate::tile::slots_unchanged_except(
                    old(self).spec_pool(),
                    final(self).spec_pool(),
                    t,
                )
                &&& final(self).spec_pool().block_count() >= old(self).spec_pool().block_count()
            },
    {
        let code = key_code(key);
        let existing: Option<usize> = match self.map.get(&code) {
            Some(pos) => Some(*pos),
            None => None,
        };
        match existing {
            Some(pos) => {
                proof {
                    assert(old(self).spec_map().contains_key(code));
                }
                pos
            },
            None => {
                let ghost pre = *old(self);
                let tile = self.tile_pool.allocate_tile();
                let ghost tidx = tile.spec_index();
                let (scale, translation) = key.chart_to_canvas_scale_and_translation();
                let record = TileData {
                    chart_to_canvas_scale: scale,
                    chart_to_canvas_translation: translation,
                };
                self.tile_pool.set_data(&tile, record);
                let mut zp: Vec<u8> = Vec::new();
                let mut zi: usize = 0;
                while zi < 8
                    invariant
                        0 <= zi <= 8,
                        zp@.len() == zi,
                        forall|b: int| 0 <= b < zi ==> zp@[b] == 0u8,
                    decreases 8 - zi,
                {
                    zp.push(0u8);
                    zi = zi + 1;
                }
                proof {
                    assert(self.spec_pool().spec_descriptor()
                        == pre.spec_pool().spec_descriptor());
                    assert(self.spec_pool().spec_descriptor().size.width == 256
                        && self.spec_pool().spec_descriptor().size.height == 256);
                    assert(zp@.len() == 8);
                    assert(8 * 256 * 256 <= 0x1000_0000);
                }
                self.tile_pool.fill_texture(&tile, &zp);
                let pos = self.charts.len();
                self.charts.push(Chart { tile });
                self.keys.push(code);
                self.map.insert(code, pos);
                proof {
                    let poolf = self.spec_pool();
                    assert(self.spec_tiles() =~= pre.spec_tiles().push(tidx)) by {
                        assert(self.charts@.len() == pre.charts@.len() + 1);
                        assert forall|t: int| 0 <= t < self.charts@.len() implies
                            self.spec_tiles()[t] == pre.spec_tiles().push(tidx)[t] by {
                            if t < pre.charts@.len() {
                                assert(self.charts@[t] == pre.charts@[t]);
                            } else {
                                assert(self.charts@[t].spec_tile() == tidx);
                            }
                        }
                    }
                    assert forall|k1: int|
                        0 <= k1 < self.spec_keys().len() implies self.spec_map().contains_key(
                        #[trigger] self.spec_keys()[k1],
                    ) && self.spec_map()[self.spec_keys()[k1]] == k1 by {
                        if k1 < pre.spec_keys().len() {
                            assert(self.spec_keys()[k1] == pre.spec_keys()[k1]);
                            assert(pre.spec_keys()[k1] != code);
                        } else {
                            assert(self.spec_keys()[k1] == code);
                        }
                    }
                    assert forall|k1: u64| self.spec_map().contains_key(k1) implies 0 <= #[trigger]
                    self.spec_map()[k1] < self.spec_keys().len() && self.spec_keys()[self.spec_map()[k1] as int]
                        == k1 by {
                        if k1 != code {
                            assert(pre.spec_map().contains_key(k1));
                            assert(self.spec_keys()[pre.spec_map()[k1] as int] == pre.spec_keys()[pre.spec_map()[k1] as int]);
                        }
                    }
                    assert forall|t: int|
                        0 <= t < self.spec_tiles().len() implies tile_index_valid(
                        poolf,
                        #[trigger] self.spec_tiles()[t],
                    ) && !free_contains(poolf, self.spec_tiles()[t]) by {
                        if t < pre.spec_tiles().len() {
                            assert(self.spec_tiles()[t] == pre.spec_tiles()[t]);
                            assert(tile_index_valid(pre.spec_pool(), pre.spec_tiles()[t]));
                            assert(!free_contains(pre.spec_pool(), pre.spec_tiles()[t]));
                            if pre.spec_pool().free().len() > 0 {
                                assert forall|k2: int|
                                    0 <= k2 < poolf.free().len() implies poolf.free()[k2]
                                    != self.spec_tiles()[t] by {
                                    assert(poolf.free()[k2] == pre.spec_pool().free()[k2]);
                                }
                            } else {
                                assert forall|k2: int|
                                    0 <= k2 < poolf.free().len() implies poolf.free()[k2]
                                    != self.spec_tiles()[t] by {
                                    assert(poolf.free()[k2].block_index
                                        == pre.spec_pool().block_count());
                                }
                            }
                        } else {
                            assert(self.spec_tiles()[t] == tidx);
                        }
                    }
                    assert forall|t1: int, t2: int|
                        0 <= t1 < t2 < self.spec_tiles().len() implies self.spec_tiles()[t1]
                        != self.spec_tiles()[t2] by {
                        if t2 == self.spec_tiles().len() - 1 {
                            assert(self.spec_tiles()[t2] == tidx);
                            assert(self.spec_tiles()[t1] == pre.spec_tiles()[t1]);
                            if pre.spec_pool().free().len() > 0 {
                                assert(free_contains(pre.spec_pool(), tidx)) by {
                                    assert(pre.spec_pool().free()[pre.spec_pool().free().len() - 1]
                                        == tidx);
                                }
                            } else {
                                assert(tidx.block_index == pre.spec_pool().block_count());
                                assert(tile_index_valid(pre.spec_pool(), pre.spec_tiles()[t1]));
                            }
                        } else {
                            assert(self.spec_tiles()[t1] == pre.spec_tiles()[t1]);
                            assert(self.spec_tiles()[t2] == pre.spec_tiles()[t2]);
                        }
                    }
                }
                pos
            },
        }
    }

    /// The existing chart for `key`, if one was created.
    pub fn get_chart(&self, key: &ChartKey) -> (r: Option<&Chart>)
        requires
            atlas_wf(*self),
        ensures
            (r is Some) <==> self.has_chart(*key),
            r is Some ==> r->Some_0.spec_tile() == self.spec_tiles()[self.spec_map()[key_code_spec(
                *key,
            )] as int],
    {
        let code = key_code(*key);
        match self.map.get(&code) {
            Some(i) => {
                proof {
                    assert(self.spec_map().contains_key(code));
                    assert(self.spec_tiles()[*i as int] == self.charts@[*i as int].spec_tile());
                }
                Some(&self.charts[*i])
            },
            None => None,
        }
    }
}

} // verus!
