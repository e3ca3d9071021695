//! A growable pool of texture-array layers ("tiles").
//!
//! The pool owns a list of blocks; block `b` is a texture array whose layer
//! count doubles with each new block, capped by the device's maximum
//! array-layer count. Released layers go onto a LIFO free list and are
//! reused before any new block is created.
//!
//! The pool tracks, per layer, a metadata record and the layer's texture
//! content as plain bytes; a host binary mirrors those onto real GPU
//! resources when it performs the uploads and copies this module decides.

use vstd::prelude::*;

verus! {

/// Two-dimensional texture extent.
#[derive(Clone, Copy, PartialEq, Eq, Structural, Debug)]
pub struct Extent2d {
    pub width: u32,
    pub height: u32,
}

impl Default for Extent2d {
    /// A one-by-one extent.
    fn default() -> (r: Extent2d)
        ensures
            r.width == 1,
            r.height == 1,
    {
        Extent2d { width: 1, height: 1 }
    }
}

/// Shape shared by every layer of every block of a pool.
#[derive(Clone, Copy, PartialEq, Eq, Structural, Debug)]
pub struct TextureLayerDescriptor {
    pub size: Extent2d,
    pub mip_level_count: u32,
    pub sample_count: u32,
}

impl Default for TextureLayerDescriptor {
    /// A one-by-one, single-sample, single-level layer.
    fn default() -> (r: TextureLayerDescriptor)
        ensures
            r.size.width == 1,
            r.size.height == 1,
            r.mip_level_count == 1,
            r.sample_count == 1,
    {
        TextureLayerDescriptor {
            size: Extent2d { width: 1, height: 1 },
            mip_level_count: 1,
            sample_count: 1,
        }
    }
}

/// A vector whose indices stay valid forever: elements are only appended.
pub struct StableVec<T> {
    vec: Vec<T>,
}

impl<T> View for StableVec<T> {
    type V = Seq<T>;

    closed spec fn view(&self) -> Seq<T> {
        self.vec@
    }
}

impl<T> StableVec<T> {
    /// An empty vector.
    pub fn new() -> (r: StableVec<T>)
        ensures
            r@.len() == 0,
    {
        StableVec { vec: Vec::new() }
    }

    /// Append a value; the returned index identifies it permanently.
    pub fn push(&mut self, value: T) -> (index: usize)
        ensures
            final(self)@ == old(self)@.push(value),
            index == old(self)@.len(),
    {
        let index = self.vec.len();
        self.vec.push(value);
        index
    }

    /// Number of elements.
    pub fn len(&self) -> (r: usize)
        ensures
            r == self@.len(),
    {
        self.vec.len()
    }

    /// Read the element at a previously returned index.
    pub fn get(&self, index: usize) -> (r: &T)
        requires
            index < self@.len(),
        ensures
            *r == self@[index as int],
    {
        &self.vec[index]
    }
}

/// Identifies one layer of one block of a pool.
#[derive(Clone, Copy, PartialEq, Eq, Structural, Debug)]
pub struct TileIndex {
    pub block_index: usize,
    pub layer_index: u32,
}

/// LIFO stack of released, reusable tile indices.
pub struct FreeList {
    indices: Vec<TileIndex>,
}

impl View for FreeList {
    type V = Seq<TileIndex>;

    closed spec fn view(&self) -> Seq<TileIndex> {
        self.indices@
    }
}

impl FreeList {
    /// An empty free list.
    pub fn new() -> (r: FreeList)
        ensures
            r@.len() == 0,
    {
        FreeList { indices: Vec::new() }
    }

    /// Pop the most recently released index, if any.
    pub fn try_allocate(&mut self) -> (r: Option<TileIndex>)
        ensures
            old(self)@.len() == 0 ==> r is None && final(self)@ == old(self)@,
            old(self)@.len() > 0 ==> r == Some(old(self)@[old(self)@.len() - 1]) && final(self)@
                == old(self)@.drop_last(),
    {
        self.indices.pop()
    }

    /// Push a released index.
    pub fn release(&mut self, index: TileIndex)
        ensures
            final(self)@ == old(self)@.push(index),
    {
        self.indices.push(index);
    }
}

/// One block: a texture array of `layer_count` layers, each with a metadata
/// slot and its modeled content bytes.
struct Block<T> {
    layer_count: u32,
    data: Vec<Option<T>>,
    content: Vec<Vec<u8>>,
}

/// An exclusively owned handle to one allocated pool layer.
pub struct Tile {
    index: TileIndex,
}

impl Tile {
    /// The index this handle stands for.
    pub closed spec fn spec_index(self) -> TileIndex {
        self.index
    }

    /// The index this handle stands for.
    pub fn index(&self) -> (r: TileIndex)
        ensures
            r == self.spec_index(),
    {
        self.index
    }
}

/// Layer count of block `b` in a pool with device limit `m`: doubles with
/// each block, starting at one, capped at `m`.
pub open spec fn spec_block_size(b: int, m: u32) -> u32 {
    let s: u32 = if b > 30 {
        31u32
    } else {
        b as u32
    };
    let raw: u32 = 1u32 << s;
    if raw <= m {
        raw
    } else {
        m
    }
}

/// A growable arena of texture-array layers with O(1) allocate and release.
pub struct Pool<T> {
    blocks: StableVec<Block<T>>,
    free_list: FreeList,
    descriptor: TextureLayerDescriptor,
    max_array_layers: u32,
}

impl<T> Pool<T> {
    /// Number of blocks created so far.
    pub closed spec fn block_count(self) -> int {
        self.blocks@.len() as int
    }

    /// Layer count of block `b`.
    pub closed spec fn layer_count_of(self, b: int) -> int {
        self.blocks@[b].layer_count as int
    }

    /// The free list, oldest release first.
    pub closed spec fn free(self) -> Seq<TileIndex> {
        self.free_list@
    }

    /// Metadata slot of layer `l` of block `b`.
    pub closed spec fn data_at(self, b: int, l: int) -> Option<T> {
        self.blocks@[b].data@[l]
    }

    /// Modeled texture content of layer `l` of block `b`.
    pub closed spec fn content_at(self, b: int, l: int) -> Seq<u8> {
        self.blocks@[b].content@[l]@
    }

    /// The device's maximum array-layer count.
    pub closed spec fn spec_max_layers(self) -> u32 {
        self.max_array_layers
    }

    /// The layer shape of this pool.
    pub closed spec fn spec_descriptor(self) -> TextureLayerDescriptor {
        self.descriptor
    }

    /// Every block's bookkeeping vectors match its layer count.
    pub closed spec fn blocks_sized(self) -> bool {
        forall|b: int|
            0 <= b < self.blocks@.len() ==> (#[trigger] self.blocks@[b]).data@.len()
                == self.blocks@[b].layer_count && self.blocks@[b].content@.len()
                == self.blocks@[b].layer_count
    }
}

/// `idx` names an existing layer of `p`.
pub open spec fn tile_index_valid<T>(p: Pool<T>, idx: TileIndex) -> bool {
    &&& 0 <= idx.block_index < p.block_count()
    &&& (idx.layer_index as int) < p.layer_count_of(idx.block_index as int)
}

/// `idx` is on the free list of `p`.
pub open spec fn free_contains<T>(p: Pool<T>, idx: TileIndex) -> bool {
    exists|k: int| 0 <= k < p.free().len() && p.free()[k] == idx
}

/// Pool invariant: the device limit is positive, block sizes follow the
/// doubling rule, and the free list holds distinct valid indices.
pub open spec fn pool_wf<T>(p: Pool<T>) -> bool {
    &&& p.spec_max_layers() >= 1
    &&& p.blocks_sized()
    &&& forall|b: int|
        0 <= b < p.block_count() ==> #[trigger] p.layer_count_of(b) == spec_block_size(
            b,
            p.spec_max_layers(),
        )
    &&& forall|k: int| 0 <= k < p.free().len() ==> tile_index_valid(p, #[trigger] p.free()[k])
    &&& forall|k1: int, k2: int|
        0 <= k1 < k2 < p.free().len() ==> p.free()[k1] != p.free()[k2]
}

/// The blocks of `b` extend those of `a` by `extra` new blocks, with all
/// shared blocks' layer counts unchanged.
pub open spec fn blocks_extended<T>(a: Pool<T>, b: Pool<T>, extra: int) -> bool {
    &&& b.block_count() == a.block_count() + extra
    &&& forall|i: int| 0 <= i < a.block_count() ==> b.layer_count_of(i) == a.layer_count_of(i)
    &&& b.spec_max_layers() == a.spec_max_layers()
    &&& b.spec_descriptor() == a.spec_descriptor()
}

/// All metadata and content slots of `b` equal those of `a`, except the one
/// at `ex` (slots of blocks that only `b` has are not constrained).
pub open spec fn slots_unchanged_except<T>(a: Pool<T>, b: Pool<T>, ex: TileIndex) -> bool {
    forall|bi: int, l: int|
        0 <= bi < a.block_count() && 0 <= l < a.layer_count_of(bi) && !(bi == ex.block_index && l
            == ex.layer_index) ==> #[trigger] b.data_at(bi, l) == a.data_at(bi, l) && b.content_at(
            bi,
            l,
        ) == a.content_at(bi, l)
}

/// Effect of one allocation on the pool's shape: either the free list's top
/// was popped, or a new block was created whose layer 0 is handed out and
/// whose remaining layers go onto the free list in increasing order.
pub open spec fn allocate_shape<T>(old_p: Pool<T>, new_p: Pool<T>, idx: TileIndex) -> bool {
    &&& if old_p.free().len() > 0 {
        &&& idx == old_p.free()[old_p.free().len() - 1]
        &&& new_p.free() == old_p.free().drop_last()
        &&& blocks_extended(old_p, new_p, 0)
    } else {
        &&& idx.block_index == old_p.block_count()
        &&& idx.layer_index == 0
        &&& blocks_extended(old_p, new_p, 1)
        &&& new_p.layer_count_of(old_p.block_count()) == spec_block_size(
            old_p.block_count(),
            old_p.spec_max_layers(),
        )
        &&& new_p.free().len() == new_p.layer_count_of(old_p.block_count()) - 1
        &&& forall|k: int|
            0 <= k < new_p.free().len() ==> #[trigger] new_p.free()[k] == (TileIndex {
                block_index: idx.block_index,
                layer_index: (k + 1) as u32,
            })
    }
    &&& !free_contains(new_p, idx)
}

/// A pool with the same free list and block shape as a well-formed pool is
/// itself well-formed.
proof fn lemma_wf_same_shape<T>(a: Pool<T>, b: Pool<T>)
    requires
        pool_wf(a),
        b.free() == a.free(),
        b.block_count() == a.block_count(),
        forall|i: int| 0 <= i < a.block_count() ==> #[trigger] b.layer_count_of(i)
            == a.layer_count_of(i),
        b.spec_max_layers() == a.spec_max_layers(),
        b.blocks_sized(),
    ensures
        pool_wf(b),
{
    assert forall|k: int| 0 <= k < b.free().len() implies tile_index_valid(
        b,
        #[trigger] b.free()[k],
    ) by {
        assert(tile_index_valid(a, a.free()[k]));
    }
}

/// All metadata and content slots of `b` equal those of `a`.
pub open spec fn slots_unchanged<T>(a: Pool<T>, b: Pool<T>) -> bool {
    forall|bi: int, l: int|
        0 <= bi < a.block_count() && 0 <= l < a.layer_count_of(bi) ==> #[trigger] b.data_at(bi, l)
            == a.data_at(bi, l) && b.content_at(bi, l) == a.content_at(bi, l)
}

impl<T> Pool<T> {
    /// An empty pool for a device that allows `max_array_layers` layers per
    /// texture array.
    pub fn new(descriptor: TextureLayerDescriptor, max_array_layers: u32) -> (r: Pool<T>)
        requires
            max_array_layers >= 1,
        ensures
            pool_wf(r),
            r.block_count() == 0,
            r.free().len() == 0,
            r.spec_max_layers() == max_array_layers,
            r.spec_descriptor() == descriptor,
    {
        Pool {
            blocks: StableVec::new(),
            free_list: FreeList::new(),
            descriptor,
            max_array_layers,
        }
    }

    /// The device's maximum array-layer count.
    pub fn max_layers(&self) -> (r: u32)
        ensures
            r == self.spec_max_layers(),
    {
        self.max_array_layers
    }

    /// The layer shape of this pool.
    pub fn texture_layer_descriptor(&self) -> (r: TextureLayerDescriptor)
        ensures
            r == self.spec_descriptor(),
    {
        self.descriptor
    }

    /// Allocate a tile: reuse the most recently released layer, or create a
    /// new block (its layer 0 is handed out, the rest go onto the free
    /// list).
    pub fn allocate_tile(&mut self) -> (t: Tile)
        requires
            pool_wf(*old(self)),
        ensures
            pool_wf(*final(self)),
            allocate_shape(*old(self), *final(self), t.spec_index()),
            tile_index_valid(*final(self), t.spec_index()),
            slots_unchanged(*old(self), *final(self)),
            old(self).free().len() == 0 ==> forall|l: int|
                0 <= l < final(self).layer_count_of(old(self).block_count())
                    ==> final(self).data_at(old(self).block_count(), l) is None && final(self).content_at(old(self).block_count(), l) =~= Seq::<u8>::empty(),
    {
        let popped = self.free_list.try_allocate();
        match popped {
            Some(index) => {
                proof {
                    let of = old(self).free();
                    assert forall|k: int| 0 <= k < self.free().len() implies self.free()[k] != index by {
                        assert(of[k] != of[of.len() - 1]);
                    }
                    assert forall|b: int|
                        0 <= b < self.block_count() implies #[trigger] self.layer_count_of(b)
                        == spec_block_size(b, self.spec_max_layers()) by {
                        assert(self.blocks@ == old(self).blocks@);
                        assert(old(self).layer_count_of(b) == spec_block_size(
                            b,
                            old(self).spec_max_layers(),
                        ));
                    }
                }
                Tile { index }
            },
            None => {
                let block_index = self.blocks.len();
                let s: u32 = if block_index > 30 {
                    31u32
                } else {
                    block_index as u32
                };
                let raw: u32 = 1u32 << s;
                proof {
                    assert(raw >= 1) by (bit_vector)
                        requires
                            raw == 1u32 << s,
                            s <= 31u32,
                    ;
                }
                let block_size: u32 = if raw <= self.max_array_layers {
                    raw
                } else {
                    self.max_array_layers
                };
                let mut data: Vec<Option<T>> = Vec::new();
                let mut content: Vec<Vec<u8>> = Vec::new();
                let mut l: u32 = 0;
                while l < block_size
                    invariant
                        0 <= l <= block_size,
                        data@.len() == l,
                        content@.len() == l,
                        forall|i: int| 0 <= i < l ==> data@[i] is None,
                        forall|i: int| 0 <= i < l ==> (#[trigger] content@[i])@.len() == 0,
                    decreases block_size - l,
                {
                    data.push(None);
                    content.push(Vec::new());
                    l = l + 1;
                }
                let block = Block { layer_count: block_size, data, content };
                let ghost blk = block;
                let ghost before = *self;
                proof {
                    assert(before.blocks@ == old(self).blocks@);
                    assert(before.free_list@ == old(self).free_list@);
                    assert(before.max_array_layers == old(self).max_array_layers);
                    assert(before.descriptor == old(self).descriptor);
                    assert forall|b: int|
                        0 <= b < before.block_count() implies #[trigger] before.layer_count_of(b)
                        == spec_block_size(b, before.spec_max_layers()) by {
                        assert(old(self).layer_count_of(b) == spec_block_size(
                            b,
                            old(self).spec_max_layers(),
                        ));
                    }
                }
                self.blocks.push(block);
                let mut li: u32 = 1;
                while li < block_size
                    invariant
                        1 <= li <= block_size || (block_size == 0 && li == 1),
                        self.blocks@ == before.blocks@.push(blk),
                        self.max_array_layers == before.max_array_layers,
                        self.descriptor == before.descriptor,
                        self.free_list@.len() == li - 1,
                        forall|k: int|
                            0 <= k < li - 1 ==> #[trigger] self.free_list@[k] == (TileIndex {
                                block_index,
                                layer_index: (k + 1) as u32,
                            }),
                        block_index == before.blocks@.len(),
                        blk.layer_count == block_size,
                        blk.data@.len() == block_size,
                        blk.content@.len() == block_size,
                        forall|i: int| 0 <= i < block_size ==> blk.data@[i] is None,
                        forall|i: int|
                            0 <= i < block_size ==> (#[trigger] blk.content@[i])@.len() == 0,
                    decreases block_size - li,
                {
                    self.free_list.release(TileIndex { block_index, layer_index: li });
                    li = li + 1;
                }
                let index = TileIndex { block_index, layer_index: 0 };
                proof {
                    assert(spec_block_size(block_index as int, before.max_array_layers)
                        == block_size);
                    assert(self.block_count() == before.block_count() + 1);
                    assert forall|b: int|
                        0 <= b < self.block_count() implies #[trigger] self.layer_count_of(b)
                        == spec_block_size(b, self.spec_max_layers()) by {
                        if b < before.block_count() {
                            assert(self.blocks@[b] == before.blocks@[b]);
                            assert(before.layer_count_of(b) == spec_block_size(
                                b,
                                before.spec_max_layers(),
                            ));
                        } else {
                            assert(self.blocks@[b] == blk);
                        }
                    }
                    assert forall|b: int|
                        0 <= b < self.block_count() implies (#[trigger] self.blocks@[b]).data@.len()
                        == self.blocks@[b].layer_count && self.blocks@[b].content@.len()
                        == self.blocks@[b].layer_count by {
                        if b < before.block_count() {
                            assert(self.blocks@[b] == before.blocks@[b]);
                        } else {
                            assert(self.blocks@[b] == blk);
                        }
                    }
                    assert forall|k: int| 0 <= k < self.free().len() implies tile_index_valid(
                        *self,
                        #[trigger] self.free()[k],
                    ) && self.free()[k] != index by {
                        assert(self.free()[k].block_index == block_index);
                        assert(self.free()[k].layer_index == (k + 1) as u32);
                        assert(0 <= k + 1 < block_size);
                        assert(self.blocks@[block_index as int] == blk);
                        assert((k + 1) as u32 != 0u32);
                    }
                    assert forall|k1: int, k2: int|
                        0 <= k1 < k2 < self.free().len() implies self.free()[k1]
                        != self.free()[k2] by {
                        assert(self.free()[k1].layer_index == (k1 + 1) as u32);
                        assert(self.free()[k2].layer_index == (k2 + 1) as u32);
                        assert(0 <= k1 + 1 < 0x1_0000_0000 && 0 <= k2 + 1 < 0x1_0000_0000);
                    }
                    assert forall|l2: int|
                        0 <= l2 < self.layer_count_of(before.block_count()) implies self.data_at(
                        before.block_count(),
                        l2,
                    ) is None && self.content_at(before.block_count(), l2) =~= Seq::<u8>::empty()
                        by {
                        assert(self.blocks@[before.block_count()] == blk);
                    }
                    assert forall|bi: int, l2: int|
                        0 <= bi < before.block_count() && 0 <= l2 < before.layer_count_of(
                            bi,
                        ) implies #[trigger] self.data_at(bi, l2) == before.data_at(bi, l2)
                        && self.content_at(bi, l2) == before.content_at(bi, l2) by {
                        assert(self.blocks@[bi] == before.blocks@[bi]);
                    }
                }
                Tile { index }
            },
        }
    }

    /// Return a tile's layer to the free list; the handle is consumed.
    pub fn release_tile(&mut self, tile: Tile)
        requires
            pool_wf(*old(self)),
            tile_index_valid(*old(self), tile.spec_index()),
            !free_contains(*old(self), tile.spec_index()),
        ensures
            pool_wf(*final(self)),
            final(self).free() == old(self).free().push(tile.spec_index()),
            blocks_extended(*old(self), *final(self), 0),
            slots_unchanged(*old(self), *final(self)),
    {
        self.free_list.release(tile.index);
        proof {
            assert forall|k1: int, k2: int|
                0 <= k1 < k2 < self.free().len() implies self.free()[k1] != self.free()[k2] by {
                if k2 == self.free().len() - 1 {
                    assert(old(self).free()[k1] != tile.spec_index());
                } else {
                    assert(old(self).free()[k1] != old(self).free()[k2]);
                }
            }
            assert forall|k: int| 0 <= k < self.free().len() implies tile_index_valid(
                *self,
                #[trigger] self.free()[k],
            ) by {
                assert(self.blocks@ == old(self).blocks@);
                if k < old(self).free().len() {
                    assert(self.free()[k] == old(self).free()[k]);
                    assert(tile_index_valid(*old(self), old(self).free()[k]));
                } else {
                    assert(self.free()[k] == tile.spec_index());
                }
            }
            assert forall|b: int|
                0 <= b < self.block_count() implies #[trigger] self.layer_count_of(b)
                == spec_block_size(b, self.spec_max_layers()) by {
                assert(self.blocks@ == old(self).blocks@);
                assert(old(self).layer_count_of(b) == spec_block_size(
                    b,
                    old(self).spec_max_layers(),
                ));
            }
        }
    }

    /// Read a tile's metadata slot.
    pub fn data(&self, tile: &Tile) -> (r: &Option<T>)
        requires
            pool_wf(*self),
            tile_index_valid(*self, tile.spec_index()),
        ensures
            *r == self.data_at(
                tile.spec_index().block_index as int,
                tile.spec_index().layer_index as int,
            ),
    {
        &self.blocks.vec[tile.index.block_index].data[tile.index.layer_index as usize]
    }

    /// Read a tile's modeled texture content.
    pub fn content(&self, tile: &Tile) -> (r: &Vec<u8>)
        requires
            pool_wf(*self),
            tile_index_valid(*self, tile.spec_index()),
        ensures
            r@ == self.content_at(
                tile.spec_index().block_index as int,
                tile.spec_index().layer_index as int,
            ),
    {
        &self.blocks.vec[tile.index.block_index].content[tile.index.layer_index as usize]
    }

    /// Write a tile's metadata slot. A reused layer keeps its old record
    /// until this is called: allocation does not zero pool memory.
    pub fn set_data(&mut self, tile: &Tile, value: T)
        requires
            pool_wf(*old(self)),
            tile_index_valid(*old(self), tile.spec_index()),
        ensures
            pool_wf(*final(self)),
            blocks_extended(*old(self), *final(self), 0),
            final(self).free() == old(self).free(),
            final(self).data_at(
                tile.spec_index().block_index as int,
                tile.spec_index().layer_index as int,
            ) == Some(value),
            final(self).content_at(
                tile.spec_index().block_index as int,
                tile.spec_index().layer_index as int,
            ) == old(self).content_at(
                tile.spec_index().block_index as int,
                tile.spec_index().layer_index as int,
            ),
            slots_unchanged_except(*old(self), *final(self), tile.spec_index()),
    {
        let bi = tile.index.block_index;
        let li = tile.index.layer_index as usize;
        self.blocks.vec[bi].data[li] = Some(value);
        proof {
            assert forall|b: int|
                0 <= b < self.block_count() implies #[trigger] self.layer_count_of(b) == old(
                self,
            ).layer_count_of(b) && (self.blocks@[b]).data@.len() == self.blocks@[b].layer_count && (
            self.blocks@[b]).content@.len() == self.blocks@[b].layer_count by {
                if b != bi {
                    assert(self.blocks@[b] == old(self).blocks@[b]);
                }
            }
            lemma_wf_same_shape(*old(self), *self);
            assert forall|b2: int, l2: int|
                0 <= b2 < old(self).block_count() && 0 <= l2 < old(self).layer_count_of(b2) && !(b2
                    == bi && l2 == li) implies #[trigger] self.data_at(b2, l2) == old(self).data_at(b2, l2) && self.content_at(b2, l2) == old(self).content_at(
                b2,
                l2,
            ) by {
                if b2 != bi {
                    assert(self.blocks@[b2] == old(self).blocks@[b2]);
                }
            }
        }
    }

    /// Fill a tile's texture with one pixel value repeated across the whole
    /// layer extent.
    pub fn fill_texture(&mut self, tile: &Tile, pixel: &Vec<u8>)
        requires
            pool_wf(*old(self)),
            tile_index_valid(*old(self), tile.spec_index()),
            pixel@.len() >= 1,
            pixel@.len() * old(self).spec_descriptor().size.width
                * old(self).spec_descriptor().size.height <= 0x1000_0000,
        ensures
            pool_wf(*final(self)),
            blocks_extended(*old(self), *final(self), 0),
            final(self).free() == old(self).free(),
            final(self).content_at(
                tile.spec_index().block_index as int,
                tile.spec_index().layer_index as int,
            ).len() == pixel@.len() * old(self).spec_descriptor().size.width * old(self).spec_descriptor().size.height,
            forall|i: int|
                0 <= i < final(self).content_at(
                    tile.spec_index().block_index as int,
                    tile.spec_index().layer_index as int,
                ).len() ==> final(self).content_at(
                    tile.spec_index().block_index as int,
                    tile.spec_index().layer_index as int,
                )[i] == pixel@[i % (pixel@.len() as int)],
            final(self).data_at(
                tile.spec_index().block_index as int,
                tile.spec_index().layer_index as int,
            ) == old(self).data_at(
                tile.spec_index().block_index as int,
                tile.spec_index().layer_index as int,
            ),
            slots_unchanged_except(*old(self), *final(self), tile.spec_index()),
    {
        let w = self.descriptor.size.width;
        let h = self.descriptor.size.height;
        let plen = pixel.len();
        let ghost total = pixel@.len() * w * h;
        let mut out: Vec<u8> = Vec::new();
        let mut t: u64 = 0;
        proof {
            assert((w as int) * (h as int) <= 0x1000_0000) by (nonlinear_arith)
                requires
                    (pixel@.len() as int) * (w as int) * (h as int) <= 0x1000_0000,
                    pixel@.len() >= 1,
                    w >= 0,
                    h >= 0,
            ;
        }
        let count: u64 = (w as u64) * (h as u64);
        proof {
            assert(pixel@.len() * w * h == (pixel@.len() as int) * ((w as int) * (h as int)))
                by (nonlinear_arith);
        }
        while t < count
            invariant
                0 <= t <= count,
                count == (w as int) * (h as int),
                plen == pixel@.len(),
                plen >= 1,
                (plen as int) * count <= 0x1000_0000,
                out@.len() == t * plen,
                forall|i: int| 0 <= i < out@.len() ==> out@[i] == pixel@[i % (plen as int)],
            decreases count - t,
        {
            let mut j: usize = 0;
            proof {
                assert((t + 1) * plen <= count * plen) by (nonlinear_arith)
                    requires
                        t + 1 <= count,
                        plen >= 1,
                ;
                assert(count * plen == (plen as int) * count) by (nonlinear_arith);
                assert(t * plen + plen == (t + 1) * plen) by (nonlinear_arith);
            }
            while j < plen
                invariant
                    0 <= j <= plen,
                    plen == pixel@.len(),
                    plen >= 1,
                    out@.len() == t * plen + j,
                    t * plen + plen <= 0x1000_0000,
                    forall|i: int| 0 <= i < out@.len() ==> out@[i] == pixel@[i % (plen as int)],
                decreases plen - j,
            {
                out.push(pixel[j]);
                proof {
                    let i0 = t * plen + j;
                    vstd::arithmetic::div_mod::lemma_mod_multiples_vanish(
                        t as int,
                        j as int,
                        plen as int,
                    );
                    vstd::arithmetic::div_mod::lemma_small_mod(j as nat, plen as nat);
                    assert((plen as int) * (t as int) == t * plen) by (nonlinear_arith);
                    assert(out@[i0] == pixel@[i0 % (plen as int)]);
                }
                j = j + 1;
            }
            t = t + 1;
        }
        let bi = tile.index.block_index;
        let li = tile.index.layer_index as usize;
        proof {
            assert(out@.len() == total) by (nonlinear_arith)
                requires
                    out@.len() == count * plen,
                    count == (w as int) * (h as int),
                    total == (pixel@.len() as int) * w * h,
                    plen == pixel@.len(),
            ;
        }
        self.blocks.vec[bi].content[li] = out;
        proof {
            assert forall|b: int|
                0 <= b < self.block_count() implies #[trigger] self.layer_count_of(b) == old(
                self,
            ).layer_count_of(b) && (self.blocks@[b]).data@.len() == self.blocks@[b].layer_count && (
            self.blocks@[b]).content@.len() == self.blocks@[b].layer_count by {
                if b != bi {
                    assert(self.blocks@[b] == old(self).blocks@[b]);
                }
            }
            lemma_wf_same_shape(*old(self), *self);
            assert forall|b2: int, l2: int|
                0 <= b2 < old(self).block_count() && 0 <= l2 < old(self).layer_count_of(b2) && !(b2
                    == bi && l2 == li) implies #[trigger] self.data_at(b2, l2) == old(self).data_at(b2, l2) && self.content_at(b2, l2) == old(self).content_at(
                b2,
                l2,
            ) by {
                if b2 != bi {
                    assert(self.blocks@[b2] == old(self).blocks@[b2]);
                }
            }
        }
    }
}

impl<T: Copy> Pool<T> {
    /// Clone a tile: allocate a fresh tile from this pool and copy the
    /// source tile's metadata record and texture content onto it. The two
    /// tiles are independent afterwards.
    pub fn clone_tile(&mut self, tile: &Tile) -> (r: Tile)
        requires
            pool_wf(*old(self)),
            tile_index_valid(*old(self), tile.spec_index()),
            !free_contains(*old(self), tile.spec_index()),
        ensures
            pool_wf(*final(self)),
            allocate_shape(*old(self), *final(self), r.spec_index()),
            tile_index_valid(*final(self), r.spec_index()),
            r.spec_index() != tile.spec_index(),
            final(self).data_at(
                r.spec_index().block_index as int,
                r.spec_index().layer_index as int,
            ) == old(self).data_at(
                tile.spec_index().block_index as int,
                tile.spec_index().layer_index as int,
            ),
            final(self).content_at(
                r.spec_index().block_index as int,
                r.spec_index().layer_index as int,
            ) == old(self).content_at(
                tile.spec_index().block_index as int,
                tile.spec_index().layer_index as int,
            ),
            slots_unchanged_except(*old(self), *final(self), r.spec_index()),
    {
        let ghost pre = *old(self);
        let dst = self.allocate_tile();
        proof {
            if pre.free().len() > 0 {
                assert(free_contains(pre, dst.spec_index())) by {
                    assert(pre.free()[pre.free().len() - 1] == dst.spec_index());
                }
            }
        }
        let sbi = tile.index.block_index;
        let sli = tile.index.layer_index as usize;
        let record: Option<T> = self.blocks.vec[sbi].data[sli];
        let bytes: Vec<u8> = clone_bytes(&self.blocks.vec[sbi].content[sli]);
        let dbi = dst.index.block_index;
        let dli = dst.index.layer_index as usize;
        let ghost mid = *self;
        self.blocks.vec[dbi].data[dli] = record;
        self.blocks.vec[dbi].content[dli] = bytes;
        proof {
            assert forall|b: int|
                0 <= b < self.block_count() implies #[trigger] self.layer_count_of(b)
                == mid.layer_count_of(b) && (self.blocks@[b]).data@.len()
                == self.blocks@[b].layer_count && (self.blocks@[b]).content@.len()
                == self.blocks@[b].layer_count by {
                if b != dbi {
                    assert(self.blocks@[b] == mid.blocks@[b]);
                }
            }
            assert(self.free() == mid.free());
            lemma_wf_same_shape(mid, *self);
            assert forall|b2: int, l2: int|
                0 <= b2 < pre.block_count() && 0 <= l2 < pre.layer_count_of(b2) && !(b2 == dbi && l2
                    == dli) implies #[trigger] self.data_at(b2, l2) == pre.data_at(b2, l2)
                && self.content_at(b2, l2) == pre.content_at(b2, l2) by {
                if b2 != dbi {
                    assert(self.blocks@[b2] == mid.blocks@[b2]);
                    assert(mid.data_at(b2, l2) == pre.data_at(b2, l2) && mid.content_at(b2, l2)
                        == pre.content_at(b2, l2));
                } else {
                    assert(mid.data_at(b2, l2) == pre.data_at(b2, l2) && mid.content_at(b2, l2)
                        == pre.content_at(b2, l2));
                }
            }
            assert(!free_contains(*self, dst.spec_index()));
            assert(mid.data_at(sbi as int, sli as int) == pre.data_at(sbi as int, sli as int)
                && mid.content_at(sbi as int, sli as int) == pre.content_at(sbi as int, sli as int));
            assert(record == mid.blocks@[sbi as int].data@[sli as int]);
            assert(bytes@ == mid.content_at(sbi as int, sli as int));
            assert(self.data_at(dbi as int, dli as int) == record);
            assert(self.content_at(dbi as int, dli as int) == bytes@);
        }
        dst
    }
}

/// The layer indices of the tiles of block `b`, in their order in `s`.
pub open spec fn layers_of(s: Seq<TileIndex>, b: int) -> Seq<u32>
    decreases s.len(),
{
    if s.len() == 0 {
        Seq::empty()
    } else {
        let rest = layers_of(s.drop_last(), b);
        if s.last().block_index == b {
            rest.push(s.last().layer_index)
        } else {
            rest
        }
    }
}

/// Some tile of `tiles` lies in block `b`.
pub open spec fn block_occurs(tiles: Seq<TileIndex>, b: int) -> bool {
    exists|j: int| 0 <= j < tiles.len() && tiles[j].block_index == b
}

/// Some element of `blocks` equals `b`.
pub open spec fn has_block(blocks: Seq<usize>, b: int) -> bool {
    exists|a: int| 0 <= a < blocks.len() && blocks[a] == b
}

/// Some batch of `r` is for block `b`.
pub open spec fn has_batch(r: Seq<(usize, Vec<u32>)>, b: int) -> bool {
    exists|k: int| 0 <= k < r.len() && r[k].0 == b
}

/// A block that occurs in `s` contributes at least one layer.
proof fn lemma_layers_of_nonempty(s: Seq<TileIndex>, b: int, i: int)
    requires
        0 <= i < s.len(),
        s[i].block_index == b,
    ensures
        layers_of(s, b).len() >= 1,
    decreases s.len(),
{
    if i == s.len() - 1 {
    } else {
        lemma_layers_of_nonempty(s.drop_last(), b, i);
    }
}

/// Group tiles into per-block draw batches: one batch per distinct block,
/// blocks in increasing order, each batch holding exactly that block's
/// layers in their input order. A renderer binds each block once and
/// draws its layers as one instanced call.
pub fn draw_batches(tiles: &Vec<TileIndex>) -> (r: Vec<(usize, Vec<u32>)>)
    ensures
        forall|k1: int, k2: int|
            0 <= k1 < k2 < r@.len() ==> (#[trigger] r@[k1]).0 < (#[trigger] r@[k2]).0,
        forall|k: int|
            0 <= k < r@.len() ==> (#[trigger] r@[k]).1@ == layers_of(tiles@, r@[k].0 as int),
        forall|k: int| 0 <= k < r@.len() ==> (#[trigger] r@[k]).1@.len() >= 1,
        forall|i: int|
            0 <= i < tiles@.len() ==> has_batch(r@, (#[trigger] tiles@[i]).block_index as int),
{
    // Distinct block indices, ascending.
    let mut blocks: Vec<usize> = Vec::new();
    let mut i: usize = 0;
    while i < tiles.len()
        invariant
            0 <= i <= tiles@.len(),
            forall|a: int, b: int| 0 <= a < b < blocks@.len() ==> blocks@[a] < blocks@[b],
            forall|a: int|
                0 <= a < blocks@.len() ==> block_occurs(tiles@, (#[trigger] blocks@[a]) as int),
            forall|j: int|
                0 <= j < i ==> has_block(blocks@, (#[trigger] tiles@[j]).block_index as int),
        decreases tiles@.len() - i,
    {
        let b = tiles[i].block_index;
        let mut found: bool = false;
        let mut scan: usize = 0;
        while scan < blocks.len()
            invariant
                0 <= scan <= blocks@.len(),
                found <==> exists|a: int| 0 <= a < scan && (#[trigger] blocks@[a]) == b,
            decreases blocks@.len() - scan,
        {
            if blocks[scan] == b {
                found = true;
                proof {
                    assert(blocks@[scan as int] == b);
                }
            }
            scan = scan + 1;
        }
        if found {
            proof {
                let a = choose|a: int| 0 <= a < blocks@.len() && blocks@[a] == b;
                assert(has_block(blocks@, tiles@[i as int].block_index as int));
            }
        }
        if !found {
            let mut pos: usize = blocks.len();
            while pos > 0 && blocks[pos - 1] > b
                invariant
                    0 <= pos <= blocks@.len(),
                    forall|t: int| pos <= t < blocks@.len() ==> (#[trigger] blocks@[t]) > b,
                decreases pos,
            {
                pos = pos - 1;
            }
            proof {
                if pos > 0 {
                    assert(blocks@[pos - 1] != b);
                    assert(blocks@[pos - 1] < b);
                }
            }
            let ghost before = blocks@;
            blocks.insert(pos, b);
            proof {
                before.insert_ensures(pos as int, b);
                assert forall|a: int, b2: int|
                    0 <= a < b2 < blocks@.len() implies blocks@[a] < blocks@[b2] by {
                    if a < pos {
                        assert(blocks@[a] == before[a]);
                    } else if a == pos {
                        assert(blocks@[a] == b);
                    } else {
                        assert(blocks@[a] == before[a - 1]);
                    }
                    if b2 < pos {
                        assert(blocks@[b2] == before[b2]);
                    } else if b2 == pos {
                        assert(blocks@[b2] == b);
                        assert(before[pos - 1] < b);
                        if a < pos - 1 {
                            assert(before[a] < before[pos - 1]);
                        }
                    } else {
                        assert(blocks@[b2] == before[b2 - 1]);
                        assert(before[b2 - 1] > b);
                        if a == pos && a < b2 - 1 {
                        }
                    }
                }
                assert forall|a: int|
                    0 <= a < blocks@.len() implies block_occurs(
                    tiles@,
                    (#[trigger] blocks@[a]) as int,
                ) by {
                    if a < pos {
                        assert(blocks@[a] == before[a]);
                    } else if a == pos {
                        assert(blocks@[a] == tiles@[i as int].block_index);
                        assert(block_occurs(tiles@, b as int));
                    } else {
                        assert(blocks@[a] == before[a - 1]);
                    }
                }
                assert forall|j: int|
                    0 <= j < i + 1 implies has_block(
                    blocks@,
                    (#[trigger] tiles@[j]).block_index as int,
                ) by {
                    if j < i {
                        let w = choose|w: int|
                            0 <= w < before.len() && before[w] == tiles@[j].block_index;
                        if w < pos {
                            assert(blocks@[w] == tiles@[j].block_index);
                        } else {
                            assert(blocks@[w + 1] == tiles@[j].block_index);
                        }
                    } else {
                        assert(blocks@[pos as int] == tiles@[j].block_index);
                    }
                }
            }
        }
        i = i + 1;
    }
    // One batch per block: that block's layers in input order.
    let mut r: Vec<(usize, Vec<u32>)> = Vec::new();
    let mut k: usize = 0;
    while k < blocks.len()
        invariant
            0 <= k <= blocks@.len(),
            r@.len() == k,
            forall|a: int, b: int| 0 <= a < b < blocks@.len() ==> blocks@[a] < blocks@[b],
            forall|a: int|
                0 <= a < blocks@.len() ==> block_occurs(tiles@, (#[trigger] blocks@[a]) as int),
            forall|j: int|
                0 <= j < tiles@.len() ==> has_block(
                    blocks@,
                    (#[trigger] tiles@[j]).block_index as int,
                ),
            forall|t: int| 0 <= t < k ==> (#[trigger] r@[t]).0 == blocks@[t],
            forall|t: int|
                0 <= t < k ==> (#[trigger] r@[t]).1@ == layers_of(tiles@, r@[t].0 as int),
        decreases blocks@.len() - k,
    {
        let b = blocks[k];
        let mut layers: Vec<u32> = Vec::new();
        let mut j: usize = 0;
        while j < tiles.len()
            invariant
                0 <= j <= tiles@.len(),
                layers@ == layers_of(tiles@.take(j as int), b as int),
            decreases tiles@.len() - j,
        {
            let t = tiles[j];
            proof {
                assert(tiles@.take(j + 1).drop_last() =~= tiles@.take(j as int));
                assert(tiles@.take(j + 1).last() == tiles@[j as int]);
            }
            if t.block_index == b {
                layers.push(t.layer_index);
            }
            j = j + 1;
        }
        proof {
            assert(tiles@.take(tiles@.len() as int) =~= tiles@);
        }
        r.push((b, layers));
        k = k + 1;
    }
    proof {
        assert forall|k2: int| 0 <= k2 < r@.len() implies (#[trigger] r@[k2]).1@.len() >= 1 by {
            assert(block_occurs(tiles@, blocks@[k2] as int));
            let j = choose|j: int|
                0 <= j < tiles@.len() && tiles@[j].block_index == blocks@[k2];
            lemma_layers_of_nonempty(tiles@, r@[k2].0 as int, j);
        }
        assert forall|i2: int|
            0 <= i2 < tiles@.len() implies has_batch(
            r@,
            (#[trigger] tiles@[i2]).block_index as int,
        ) by {
            assert(has_block(blocks@, tiles@[i2].block_index as int));
            let a = choose|a: int|
                0 <= a < blocks@.len() && blocks@[a] == tiles@[i2].block_index;
            assert(r@[a].0 == tiles@[i2].block_index);
        }
    }
    r
}

/// Byte-for-byte copy of a byte vector.
fn clone_bytes(v: &Vec<u8>) -> (r: Vec<u8>)
    ensures
        r@ == v@,
{
    let mut r: Vec<u8> = Vec::new();
    let mut i: usize = 0;
    while i < v.len()
        invariant
            0 <= i <= v@.len(),
            r@ == v@.take(i as int),
        decreases v@.len() - i,
    {
        r.push(v[i]);
        proof {
            assert(r@ =~= v@.take(i + 1));
        }
        i = i + 1;
    }
    proof {
        assert(r@ =~= v@);
    }
    r
}

} // verus!
