use vstd::prelude::*;

use crate::error::RenderError;
use crate::texman::{is_mapped, slot_of, Texman};

verus! {

/// One triangle of a model. `color`, like every float attribute here, is
/// held as the IEEE-754 bit patterns of its four `f32` components.
/// `layer` is the external texture id, or negative for an untextured face.
#[derive(Clone, Copy, Debug)]
pub struct TexFace {
    pub color: [u32; 4],
    pub vid: [usize; 3],
    pub uvid: [usize; 3],
    pub layer: i32,
}

/// Client geometry: vertex positions, texture coordinates and the faces
/// that index into them.
#[derive(Clone, Debug)]
pub struct Model {
    pub vs: Vec<[u32; 4]>,
    pub uvs: Vec<[u32; 2]>,
    pub tex_faces: Vec<TexFace>,
}

/// The texture binding of an emitted vertex: a slot of the texture array,
/// or the untextured sentinel.
#[derive(Clone, Copy, Debug, PartialEq, Eq, Structural)]
pub enum TexRef {
    Untextured,
    Slot(usize),
}

/// A vertex as it is written to the shared vertex buffer.
#[derive(Clone, Copy, Debug)]
pub struct Vertex {
    pub pos: [u32; 4],
    pub color: [u32; 4],
    pub tex_coord: [u32; 2],
    pub tex_layer: TexRef,
}

/// Every index of every face is in range; texture coordinates are only
/// looked up for textured faces.
pub open spec fn well_indexed(m: Model) -> bool {
    forall|f: int, c: int|
        0 <= f < m.tex_faces@.len() && 0 <= c < 3 ==> #[trigger] corner_in_range(m, m.tex_faces@[f], c)
}

/// Corner `c` of `face` indexes into `m`'s vertex (and, if textured, UV) lists.
pub open spec fn corner_in_range(m: Model, face: TexFace, c: int) -> bool {
    &&& face.vid@[c] < m.vs@.len()
    &&& (face.layer >= 0 ==> face.uvid@[c] < m.uvs@.len())
}

/// Some textured face of `m` names a texture that the slot table `s` does
/// not map.
pub open spec fn has_unknown_texture(m: Model, s: Seq<Option<u32>>) -> bool {
    exists|f: int|
        0 <= f < m.tex_faces@.len() && (#[trigger] m.tex_faces@[f]).layer >= 0
            && !is_mapped(s, m.tex_faces@[f].layer as u32)
}

/// `v` is corner `c` of face `f` of `m`, its texture bound through `s`.
pub open spec fn is_face_vertex(m: Model, s: Seq<Option<u32>>, f: int, c: int, v: Vertex) -> bool {
    let face = m.tex_faces@[f];
    &&& v.pos == m.vs@[face.vid@[c] as int]
    &&& v.color == face.color
    &&& face.layer < 0 ==> v.tex_coord@ == seq![0u32, 0u32] && v.tex_layer == TexRef::Untextured
    &&& face.layer >= 0 ==> v.tex_coord == m.uvs@[face.uvid@[c] as int] && (v.tex_layer matches TexRef::Slot(k)
        && slot_of(s, face.layer as u32, k as int))
}

/// `vs` is the compiled form of `m`: three vertices per face, in face order.
pub open spec fn is_compiled(m: Model, s: Seq<Option<u32>>, vs: Seq<Vertex>) -> bool {
    &&& vs.len() == 3 * m.tex_faces@.len()
    &&& forall|f: int, c: int|
        0 <= f < m.tex_faces@.len() && 0 <= c < 3 ==> is_face_vertex(m, s, f, c, #[trigger] vs[3 * f + c])
}

impl Model {
    /// Whether every face index is in range (see `well_indexed`).
    pub fn is_well_indexed(&self) -> (r: bool)
        ensures
            r == well_indexed(*self),
    {
        let mut f: usize = 0;
        while f < self.tex_faces.len()
            invariant
                f <= self.tex_faces@.len(),
                forall|g: int, c: int|
                    0 <= g < f && 0 <= c < 3 ==> #[trigger] corner_in_range(*self, self.tex_faces@[g], c),
            decreases self.tex_faces@.len() - f,
        {
            let face = self.tex_faces[f];
            let mut c: usize = 0;
            while c < 3
                invariant
                    f < self.tex_faces@.len(),
                    face == self.tex_faces@[f as int],
                    c <= 3,
                    forall|d: int| 0 <= d < c ==> #[trigger] corner_in_range(*self, face, d),
                decreases 3 - c,
            {
                if face.vid[c] >= self.vs.len() || (face.layer >= 0 && face.uvid[c] >= self.uvs.len()) {
                    assert(!well_indexed(*self)) by {
                        assert(self.tex_faces@[f as int] == face);
                        assert(!corner_in_range(*self, self.tex_faces@[f as int], c as int));
                    }
                    return false;
                }
                c += 1;
            }
            f += 1;
        }
        true
    }
}

/// Corner `c` of `face`, bound to `tex_layer`.
fn corner(model: &Model, face: &TexFace, c: usize, tex_layer: TexRef) -> (v: Vertex)
    requires
        c < 3,
        face.vid@[c as int] < model.vs@.len(),
        face.layer >= 0 ==> face.uvid@[c as int] < model.uvs@.len(),
    ensures
        v.pos == model.vs@[face.vid@[c as int] as int],
        v.color == face.color,
        v.tex_layer == tex_layer,
        face.layer < 0 ==> v.tex_coord@ == seq![0u32, 0u32],
        face.layer >= 0 ==> v.tex_coord == model.uvs@[face.uvid@[c as int] as int],
{
    let tex_coord = if face.layer < 0 {
        [0u32, 0u32]
    } else {
        model.uvs[face.uvid[c]]
    };
    proof {
        if face.layer < 0 {
            assert(tex_coord@ =~= seq![0u32, 0u32]);
        }
    }
    Vertex { pos: model.vs[face.vid[c]], color: face.color, tex_coord, tex_layer }
}

/// Compiles `model` into three vertices per face, binding each textured face
/// to the slot its texture id resolves to in `tex`. `UnknownHandle` when some
/// textured face names an unmapped texture.
pub fn compile_model<T>(model: &Model, tex: &Texman<T>) -> (r: Result<Vec<Vertex>, RenderError>)
    requires
        tex.wf(),
        well_indexed(*model),
    ensures
        r is Err <==> has_unknown_texture(*model, tex.slots()),
        r matches Err(e) ==> e == RenderError::UnknownHandle,
        r matches Ok(vs) ==> is_compiled(*model, tex.slots(), vs@),
{
    let ghost m = *model;
    let ghost s = tex.slots();
    let mut out: Vec<Vertex> = Vec::new();
    let mut f: usize = 0;
    while f < model.tex_faces.len()
        invariant
            tex.wf(),
            well_indexed(m),
            m == *model,
            s == tex.slots(),
            f <= m.tex_faces@.len(),
            out@.len() == 3 * f,
            forall|g: int| 0 <= g < f && (#[trigger] m.tex_faces@[g]).layer >= 0
                ==> is_mapped(s, m.tex_faces@[g].layer as u32),
            forall|g: int, c: int| 0 <= g < f && 0 <= c < 3 ==> is_face_vertex(m, s, g, c, #[trigger] out@[3 * g + c]),
        decreases m.tex_faces@.len() - f,
    {
        let face = model.tex_faces[f];
        assert(face == m.tex_faces@[f as int]);
        assert(corner_in_range(m, m.tex_faces@[f as int], 0));
        assert(corner_in_range(m, m.tex_faces@[f as int], 1));
        assert(corner_in_range(m, m.tex_faces@[f as int], 2));
        let tex_layer = if face.layer < 0 {
            TexRef::Untextured
        } else {
            match tex.resolve(face.layer as u32) {
                Ok(k) => TexRef::Slot(k),
                Err(e) => {
                    assert(has_unknown_texture(m, s));
                    return Err(e);
                },
            }
        };
        let ghost before = out@;
        out.push(corner(model, &face, 0, tex_layer));
        out.push(corner(model, &face, 1, tex_layer));
        out.push(corner(model, &face, 2, tex_layer));
        proof {
            assert forall|g: int, c: int| 0 <= g <= f && 0 <= c < 3 implies is_face_vertex(m, s, g, c, #[trigger] out@[3 * g + c]) by {
                if g < f {
                    assert(out@[3 * g + c] == before[3 * g + c]);
                } else {
                    assert(m.tex_faces@[g] == face);
                }
            }
        }
        f += 1;
    }
    proof {
        if has_unknown_texture(m, s) {
            let g = choose|g: int| 0 <= g < m.tex_faces@.len() && (#[trigger] m.tex_faces@[g]).layer >= 0
                && !is_mapped(s, m.tex_faces@[g].layer as u32);
            assert(false);
        }
    }
    Ok(out)
}

} // verus!
