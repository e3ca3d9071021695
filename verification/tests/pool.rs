//! Tile pool allocation, reuse and cloning.

use stark::tile::{Extent2d, Pool, TextureLayerDescriptor, TileIndex};

fn small_pool(max_layers: u32) -> Pool<u32> {
    let descriptor = TextureLayerDescriptor {
        size: Extent2d { width: 4, height: 4 },
        mip_level_count: 1,
        sample_count: 1,
    };
    Pool::new(descriptor, max_layers)
}

#[test]
fn pool_reuse_is_lifo() {
    // Allocate three times, release the first handle, allocate again:
    // the fourth allocation returns exactly the released index.
    let mut pool = small_pool(4);
    let t1 = pool.allocate_tile();
    let t2 = pool.allocate_tile();
    let t3 = pool.allocate_tile();
    let released = t1.index();
    assert_ne!(released, t2.index());
    assert_ne!(released, t3.index());
    pool.release_tile(t1);
    let t4 = pool.allocate_tile();
    assert_eq!(t4.index(), released);
}

#[test]
fn pool_growth_doubles_blocks() {
    // First allocation creates block 0 of size 1 (layer 0, no spare);
    // the second creates block 1 of size 2, returns its layer 0 and
    // leaves layer 1 on the free list; the third returns that layer 1
    // without creating a new block.
    let mut pool = small_pool(4);
    let t1 = pool.allocate_tile();
    assert_eq!(t1.index(), TileIndex { block_index: 0, layer_index: 0 });
    let t2 = pool.allocate_tile();
    assert_eq!(t2.index(), TileIndex { block_index: 1, layer_index: 0 });
    let t3 = pool.allocate_tile();
    assert_eq!(t3.index(), TileIndex { block_index: 1, layer_index: 1 });
    let t4 = pool.allocate_tile();
    assert_eq!(t4.index(), TileIndex { block_index: 2, layer_index: 0 });
}

#[test]
fn block_size_caps_at_device_limit() {
    let mut pool = small_pool(2);
    let mut tiles = Vec::new();
    for _ in 0..7 {
        tiles.push(pool.allocate_tile());
    }
    // Blocks have sizes 1, 2, 2, 2: seven tiles span four blocks.
    assert_eq!(tiles[6].index().block_index, 3);
    for t in &tiles {
        assert!(t.index().layer_index < 2);
    }
}

#[test]
fn metadata_slot_follows_tile() {
    let mut pool = small_pool(4);
    let t1 = pool.allocate_tile();
    let t2 = pool.allocate_tile();
    pool.set_data(&t1, 11u32);
    pool.set_data(&t2, 22u32);
    assert_eq!(*pool.data(&t1), Some(11));
    assert_eq!(*pool.data(&t2), Some(22));
}

#[test]
fn fill_texture_repeats_pixel() {
    let mut pool = small_pool(4);
    let t = pool.allocate_tile();
    pool.fill_texture(&t, &vec![7u8, 9u8]);
    let content = pool.content(&t);
    assert_eq!(content.len(), 2 * 4 * 4);
    for (i, b) in content.iter().enumerate() {
        assert_eq!(*b, if i % 2 == 0 { 7 } else { 9 });
    }
}

#[test]
fn clone_tile_copies_content_and_data() {
    // Round trip: cloning a tile and reading back both tiles' content
    // yields identical bytes, and the clone is independent afterwards.
    let mut pool = small_pool(8);
    let t = pool.allocate_tile();
    pool.set_data(&t, 5u32);
    pool.fill_texture(&t, &vec![1u8, 2u8, 3u8, 4u8]);
    let c = pool.clone_tile(&t);
    assert_ne!(c.index(), t.index());
    assert_eq!(pool.content(&c), pool.content(&t));
    assert_eq!(*pool.data(&c), Some(5));
    // Refilling the source leaves the clone untouched.
    pool.fill_texture(&t, &vec![9u8]);
    assert_eq!(pool.content(&c).len(), 4 * 4 * 4);
    assert_eq!(pool.content(&t).len(), 4 * 4);
}

#[test]
fn released_metadata_persists_until_rewritten() {
    // Pool memory is not zeroed between reuses: the caller must
    // re-initialize a reused tile's metadata slot.
    let mut pool = small_pool(4);
    let t1 = pool.allocate_tile();
    pool.set_data(&t1, 42u32);
    let idx = t1.index();
    pool.release_tile(t1);
    let t2 = pool.allocate_tile();
    assert_eq!(t2.index(), idx);
    assert_eq!(*pool.data(&t2), Some(42));
    pool.set_data(&t2, 0u32);
    assert_eq!(*pool.data(&t2), Some(0));
}

#[test]
fn stable_vec_push_returns_stable_indices() {
    let mut v = stark::tile::StableVec::new();
    let a = v.push(10i64);
    let b = v.push(20i64);
    assert_eq!((a, b), (0, 1));
    assert_eq!(v.len(), 2);
    assert_eq!(*v.get(a), 10);
    assert_eq!(*v.get(b), 20);
}

#[test]
fn draw_batches_groups_by_block() {
    let t = |b: usize, l: u32| TileIndex { block_index: b, layer_index: l };
    let tiles = vec![t(2, 0), t(0, 1), t(2, 1), t(1, 0), t(0, 0)];
    let batches = stark::tile::draw_batches(&tiles);
    assert_eq!(batches.len(), 3);
    assert_eq!(batches[0].0, 0);
    assert_eq!(batches[0].1, vec![1, 0]);
    assert_eq!(batches[1].0, 1);
    assert_eq!(batches[1].1, vec![0]);
    assert_eq!(batches[2].0, 2);
    assert_eq!(batches[2].1, vec![0, 1]);
    assert!(stark::tile::draw_batches(&Vec::new()).is_empty());
}

#[test]
fn free_list_is_a_stack() {
    let mut fl = stark::tile::FreeList::new();
    assert!(fl.try_allocate().is_none());
    fl.release(TileIndex { block_index: 0, layer_index: 0 });
    fl.release(TileIndex { block_index: 1, layer_index: 3 });
    assert_eq!(fl.try_allocate(), Some(TileIndex { block_index: 1, layer_index: 3 }));
    assert_eq!(fl.try_allocate(), Some(TileIndex { block_index: 0, layer_index: 0 }));
    assert!(fl.try_allocate().is_none());
}
