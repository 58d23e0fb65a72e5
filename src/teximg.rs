use vstd::prelude::*;

verus! {

/// An RGBA8 image: `dim` is width and height, `data` the pixels row by row,
/// four bytes each.
pub struct Teximg {
    pub dim: [u32; 2],
    pub data: Vec<u8>,
}

/// The RGBA value at `(x, y)` of the 1024 x 64 palette image: red steps
/// with each block of 32 columns, green with each row, blue within a block.
pub open spec fn rgb565_texel_spec(x: u32, y: u32) -> Seq<u8> {
    seq![((x / 32) * 8) as u8, (y * 4) as u8, ((x % 32) * 8) as u8, 255u8]
}

/// The RGBA value at `(x, y)` of the palette image (see `rgb565_texel_spec`).
pub fn rgb565_texel(x: u32, y: u32) -> (r: [u8; 4])
    requires
        x < 1024,
        y < 64,
    ensures
        r@ == rgb565_texel_spec(x, y),
{
    let r = [(x / 32) as u8 * 8, y as u8 * 4, (x % 32) as u8 * 8, 255u8];
    assert(r@ =~= rgb565_texel_spec(x, y));
    r
}

/// The RGBA bytes of the 1024 x 64 palette image, row by row.
///
/// Relies on `image::ImageBuffer::from_fn`, which allocates a zeroed buffer
/// of `width * height * 4` bytes and stores the closure's value for pixel
/// `(x, y)` at `(y * width + x) * 4` (`ImageBuffer::new`,
/// `enumerate_pixels_mut`, `pixel_indices_unchecked`), and on `into_vec`,
/// which hands that buffer back.
#[verifier::external_body]
fn palette_pixels() -> (r: Vec<u8>)
    ensures
        r@.len() == 1024 * 64 * 4,
        forall|x: int, y: int, k: int|
            #![trigger r@[(y * 1024 + x) * 4 + k]]
            0 <= x < 1024 && 0 <= y < 64 && 0 <= k < 4 ==> r@[(y * 1024 + x) * 4 + k]
                == rgb565_texel_spec(x as u32, y as u32)[k],
{
    image::ImageBuffer::from_fn(1024, 64, |x, y| image::Rgba::<u8>::from(rgb565_texel(x, y))).into_vec()
}

impl Teximg {
    /// The 1024 x 64 palette image: pixel `(x, y)` is `rgb565_texel(x, y)`.
    pub fn preset_rgb565() -> (r: Teximg)
        ensures
            r.dim@ == seq![1024u32, 64u32],
            r.data@.len() == 1024 * 64 * 4,
            forall|x: int, y: int, k: int|
                #![trigger r.data@[(y * 1024 + x) * 4 + k]]
                0 <= x < 1024 && 0 <= y < 64 && 0 <= k < 4 ==> r.data@[(y * 1024 + x) * 4 + k]
                    == rgb565_texel_spec(x as u32, y as u32)[k],
    {
        let dim: [u32; 2] = [1024, 64];
        assert(dim@ =~= seq![1024u32, 64u32]);
        Teximg { dim, data: palette_pixels() }
    }
}

} // verus!
