use vstd::prelude::*;

use vstd::string::StringSliceAdditionalSpecFns;

use crate::bitw::{load_font, load_font_bytes};
use crate::model::TexFace;
use crate::teximg::Teximg;

verus! {

/// Layout of a monospace bitmap font: the size of one glyph, of the screen
/// and of the font texture, all in pixels.
pub struct FontConfig {
    font_size: [u32; 2],
    screen_size: [u32; 2],
    texture_size: [u32; 2],
}

/// The glyph grid of the screen is `x1` glyphs wide and that of the font
/// texture `x2`; glyph `idx` of the text shows byte `ch`. These are the
/// indices of corner `c` of its two triangles: `(vid, uvid)` into the vertex
/// and UV grids, which have one more column than there are glyphs.
pub open spec fn glyph_corner(x1: int, x2: int, idx: int, ch: int, tri: int, c: int) -> (int, int) {
    let su = (idx / x1) * (x1 + 1) + idx % x1;
    let sd = (idx / x1 + 1) * (x1 + 1) + idx % x1;
    let tu = (ch / x2) * (x2 + 1) + ch % x2;
    let td = (ch / x2 + 1) * (x2 + 1) + ch % x2;
    if tri == 0 {
        if c == 0 {
            (su, tu)
        } else if c == 1 {
            (su + 1, tu + 1)
        } else {
            (sd, td)
        }
    } else {
        if c == 0 {
            (su + 1, tu + 1)
        } else if c == 1 {
            (sd, td)
        } else {
            (sd + 1, td + 1)
        }
    }
}

/// The two grid points of cell `idx` in a grid `w` cells wide (`w + 1`
/// points per row): its upper-left and lower-left corners.
fn grid_corners(idx: usize, w: usize) -> (r: (usize, usize))
    requires
        w > 0,
        (idx / w + 2) * (w + 1) <= usize::MAX,
    ensures
        r.0 == (idx / w) * (w + 1) + idx % w,
        r.1 == (idx / w + 1) * (w + 1) + idx % w,
        r.1 + 1 <= usize::MAX,
        r.0 + 1 < r.1,
{
    let row = idx / w;
    let col = idx % w;
    proof {
        vstd::arithmetic::div_mod::lemma_mod_pos_bound(idx as int, w as int);
        assert((row + 1) * (w + 1) + col + 1 <= (row + 2) * (w + 1)) by (nonlinear_arith)
            requires
                col < w,
        ;
        assert(row * (w + 1) + (w + 1) == (row + 1) * (w + 1)) by (nonlinear_arith);
        assert(0 <= row * (w + 1) <= (row + 1) * (w + 1)) by (nonlinear_arith);
        assert((row + 1) * (w + 1) <= (row + 2) * (w + 1)) by (nonlinear_arith);
        assert(row + 2 <= (row + 2) * (w + 1)) by (nonlinear_arith);
    }
    let stride = w + 1;
    let up = row * stride + col;
    let down = (row + 1) * stride + col;
    (up, down)
}

/// Bounds the grid position of any cell before `n` by that of `n`.
proof fn lemma_cell_bound(idx: int, n: int, w: int)
    requires
        0 <= idx < n,
        w > 0,
    ensures
        (idx / w + 2) * (w + 1) <= (n / w + 2) * (w + 1),
{
    vstd::arithmetic::div_mod::lemma_div_is_ordered(idx, n, w);
    assert((idx / w + 2) * (w + 1) <= (n / w + 2) * (w + 1)) by (nonlinear_arith)
        requires
            idx / w <= n / w,
            w > 0,
    ;
}

impl FontConfig {
    pub closed spec fn font_dims(&self) -> Seq<u32> {
        self.font_size@
    }

    pub closed spec fn screen_dims(&self) -> Seq<u32> {
        self.screen_size@
    }

    pub closed spec fn texture_dims(&self) -> Seq<u32> {
        self.texture_size@
    }

    /// A layout for the given screen, font texture and glyph sizes.
    pub fn new(screen_size: [u32; 2], texture_size: [u32; 2], font_size: [u32; 2]) -> (r: Self)
        ensures
            r.screen_dims() == screen_size@,
            r.texture_dims() == texture_size@,
            r.font_dims() == font_size@,
    {
        FontConfig { font_size, screen_size, texture_size }
    }

    /// Sets the screen size.
    pub fn resize_screen(&mut self, new_size: [u32; 2])
        ensures
            final(self).screen_dims() == new_size@,
            final(self).texture_dims() == old(self).texture_dims(),
            final(self).font_dims() == old(self).font_dims(),
    {
        self.screen_size = new_size;
    }

    /// The size of one glyph.
    pub fn get_font_size(&self) -> (r: [u32; 2])
        ensures
            r@ == self.font_dims(),
    {
        self.font_size
    }

    /// How many whole glyphs fit across and down the screen.
    pub fn get_terminal_size_in_char(&self) -> (r: [u32; 2])
        requires
            self.font_dims()[0] > 0,
            self.font_dims()[1] > 0,
        ensures
            r@ == seq![
                (self.screen_dims()[0] / self.font_dims()[0]) as u32,
                (self.screen_dims()[1] / self.font_dims()[1]) as u32,
            ],
    {
        let r = [self.screen_size[0] / self.font_size[0], self.screen_size[1] / self.font_size[1]];
        assert(r@ =~= seq![r[0], r[1]]);
        r
    }

    /// How many whole glyphs fit across and down the font texture.
    pub fn get_texture_size_in_char(&self) -> (r: [u32; 2])
        requires
            self.font_dims()[0] > 0,
            self.font_dims()[1] > 0,
        ensures
            r@ == seq![
                (self.texture_dims()[0] / self.font_dims()[0]) as u32,
                (self.texture_dims()[1] / self.font_dims()[1]) as u32,
            ],
    {
        let r = [self.texture_size[0] / self.font_size[0], self.texture_size[1] / self.font_size[1]];
        assert(r@ =~= seq![r[0], r[1]]);
        r
    }
}

impl FontConfig {
    /// Two triangles per byte of `text`, laying the text out left to right
    /// and top to bottom on the screen's glyph grid and mapping each byte to
    /// its glyph cell of the font texture; the faces carry `layer` and a zero
    /// color.
    pub fn text2fs(&self, text: &str, layer: i32) -> (r: Vec<TexFace>)
        requires
            self.font_dims()[0] > 0,
            self.font_dims()[1] > 0,
            text.spec_bytes().len() > 0 ==> self.screen_dims()[0] / self.font_dims()[0] > 0,
            text.spec_bytes().len() > 0 ==> self.texture_dims()[0] / self.font_dims()[0] > 0,
            text.spec_bytes().len() > 0 ==> ({
                let x1 = (self.screen_dims()[0] / self.font_dims()[0]) as int;
                let x2 = (self.texture_dims()[0] / self.font_dims()[0]) as int;
                &&& (text.spec_bytes().len() as int / x1 + 2) * (x1 + 1) <= usize::MAX
                &&& (256int / x2 + 2) * (x2 + 1) <= usize::MAX
            }),
        ensures
            r@.len() == 2 * text.spec_bytes().len(),
            forall|i: int, tri: int, c: int|
                #![trigger r@[2 * i + tri].vid@[c]]
                0 <= i < text.spec_bytes().len() && 0 <= tri < 2 && 0 <= c < 3 ==> {
                    let face = r@[2 * i + tri];
                    let x1 = self.screen_dims()[0] / self.font_dims()[0];
                    let x2 = self.texture_dims()[0] / self.font_dims()[0];
                    glyph_corner(x1 as int, x2 as int, i, text.spec_bytes()[i] as int, tri, c) == (
                        face.vid@[c] as int,
                        face.uvid@[c] as int,
                    )
                },
            forall|k: int| 0 <= k < r@.len() ==> (#[trigger] r@[k]).layer == layer && r@[k].color@ == seq![0u32, 0u32, 0u32, 0u32],
    {
        let x1 = self.get_terminal_size_in_char()[0] as usize;
        let x2 = self.get_texture_size_in_char()[0] as usize;
        let bytes = text.as_bytes();
        let n = bytes.len();
        let mut result: Vec<TexFace> = Vec::new();
        if n == 0 {
            return result;
        }
        let mut idx: usize = 0;
        while idx < n
            invariant
                n == bytes@.len(),
                bytes@ == text.spec_bytes(),
                x1 == self.screen_dims()[0] / self.font_dims()[0],
                x2 == self.texture_dims()[0] / self.font_dims()[0],
                x1 > 0,
                x2 > 0,
                (n as int / x1 as int + 2) * (x1 + 1) <= usize::MAX,
                (256int / x2 as int + 2) * (x2 + 1) <= usize::MAX,
                idx <= n,
                result@.len() == 2 * idx,
                forall|i: int, tri: int, c: int|
                    #![trigger result@[2 * i + tri].vid@[c]]
                    0 <= i < idx && 0 <= tri < 2 && 0 <= c < 3 ==> {
                        let face = result@[2 * i + tri];
                        glyph_corner(x1 as int, x2 as int, i, bytes@[i] as int, tri, c) == (
                            face.vid@[c] as int,
                            face.uvid@[c] as int,
                        )
                    },
                forall|k: int| 0 <= k < result@.len() ==> (#[trigger] result@[k]).layer == layer
                    && result@[k].color@ == seq![0u32, 0u32, 0u32, 0u32],
            decreases n - idx,
        {
            let ch = bytes[idx] as usize;
            proof {
                lemma_cell_bound(idx as int, n as int, x1 as int);
                lemma_cell_bound(ch as int, 256, x2 as int);
            }
            let (su, sd) = grid_corners(idx, x1);
            let (tu, td) = grid_corners(ch, x2);
            let color = [0u32, 0u32, 0u32, 0u32];
            let face1 = TexFace { vid: [su, su + 1, sd], color, layer, uvid: [tu, tu + 1, td] };
            let face2 = TexFace { vid: [su + 1, sd, sd + 1], color, layer, uvid: [tu + 1, td, td + 1] };
            let ghost before = result@;
            result.push(face1);
            result.push(face2);
            proof {
                assert(color@ =~= seq![0u32, 0u32, 0u32, 0u32]);
                assert(face1.vid@ =~= seq![su, (su + 1) as usize, sd]);
                assert(face1.uvid@ =~= seq![tu, (tu + 1) as usize, td]);
                assert(face2.vid@ =~= seq![(su + 1) as usize, sd, (sd + 1) as usize]);
                assert(face2.uvid@ =~= seq![(tu + 1) as usize, td, (td + 1) as usize]);
                assert forall|i: int, tri: int, c: int|
                    #![trigger result@[2 * i + tri].vid@[c]]
                    0 <= i <= idx && 0 <= tri < 2 && 0 <= c < 3 implies {
                        let face = result@[2 * i + tri];
                        glyph_corner(x1 as int, x2 as int, i, bytes@[i] as int, tri, c) == (
                            face.vid@[c] as int,
                            face.uvid@[c] as int,
                        )
                    } by {
                    if i < idx {
                        assert(result@[2 * i + tri] == before[2 * i + tri]);
                    }
                }
            }
            idx += 1;
        }
        result
    }
}

impl FontConfig {
    /// Reads a bitmap font from the text of its file (see
    /// `load_font_bytes`): on success the glyph atlas, 1024 pixels square,
    /// and this layout takes the font's glyph size and the atlas size. On a
    /// malformed file, `None` and nothing changes.
    pub fn bitw_loader(&mut self, text: &str) -> (r: Option<Teximg>)
        ensures
            match load_font(text.spec_bytes()) {
                Some(st) => r matches Some(img) && img.dim@ == seq![1024u32, 1024u32] && img.data@ == st.data
                    && final(self).font_dims() == seq![st.col, st.row]
                    && final(self).texture_dims() == seq![1024u32, 1024u32]
                    && final(self).screen_dims() == old(self).screen_dims(),
                None => r is None && *final(self) == *old(self),
            },
    {
        match load_font_bytes(text) {
            Some((data, col, row)) => {
                let dim: [u32; 2] = [1024, 1024];
                self.texture_size = dim;
                self.font_size = [col, row];
                proof {
                    assert(dim@ =~= seq![1024u32, 1024u32]);
                    assert(self.font_size@ =~= seq![col, row]);
                }
                Some(Teximg { dim, data })
            },
            None => None,
        }
    }
}

impl Default for FontConfig {
    fn default() -> (r: Self)
        ensures
            r.font_dims() == seq![0u32, 0u32],
            r.screen_dims() == seq![0u32, 0u32],
            r.texture_dims() == seq![0u32, 0u32],
    {
        let r = FontConfig { font_size: [0, 0], screen_size: [0, 0], texture_size: [0, 0] };
        assert(r.font_size@ =~= seq![0u32, 0u32]);
        assert(r.screen_size@ =~= seq![0u32, 0u32]);
        assert(r.texture_size@ =~= seq![0u32, 0u32]);
        r
    }
}

} // verus!
