//! Creating a texture from image data, against the pool's content model.
//!
//! Decoding an image file and uploading it to the GPU are host work; the
//! library models a layer's texture content as plain bytes, and this
//! checks that creating a tile texture from pixel data stores exactly
//! those bytes.

use stark::tile::{Extent2d, Pool, TextureLayerDescriptor};

#[test]
fn create_image_texture() {
    let descriptor = TextureLayerDescriptor {
        size: Extent2d { width: 8, height: 8 },
        mip_level_count: 1,
        sample_count: 1,
    };
    let mut pool: Pool<u32> = Pool::new(descriptor, 4);
    let tile = pool.allocate_tile();

    // A uniform mid-gray image, four bytes per pixel.
    let pixel = vec![0x7fu8, 0x7fu8, 0x7fu8, 0xffu8];
    pool.fill_texture(&tile, &pixel);

    let content = pool.content(&tile);
    assert_eq!(content.len(), 4 * 8 * 8);
    for (i, b) in content.iter().enumerate() {
        let want = pixel[i % 4];
        assert_eq!(*b, want, "byte {i}");
    }

    // A second texture created from the same data reads back equal.
    let copy = pool.clone_tile(&tile);
    assert_eq!(pool.content(&copy), pool.content(&tile));
}
