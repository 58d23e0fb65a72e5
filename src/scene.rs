use vstd::prelude::*;

use crate::error::RenderError;
use crate::model::{has_unknown_texture, is_compiled, well_indexed, Model, TexRef, Vertex};
use crate::modelman::{
    remap_vertex, has_model, is_draw_order, live_models, model_at, remap_model, stream, ModelHandle, ModelView, Modelman,
    BUFSIZE,
};
use crate::texman::{lemma_compacted_len, compacted, is_mapped, lemma_compacted_rank, rank, remap_entry, retire, Texman};

verus! {

/// One step of a frame's command sequence.
#[derive(Clone, Copy, Debug, PartialEq, Eq, Structural)]
pub enum Command {
    /// Begin the render pass on the target image, clearing it.
    BeginRenderPass,
    /// Bind the camera uniform.
    BindCamera,
    /// Bind the texture array, which has this many layers.
    BindTextureArray { layers: usize },
    /// Bind the shared vertex buffer.
    BindVertexBuffer,
    /// Draw this many vertices from the start of the vertex buffer.
    Draw { vertex_count: usize },
    /// End the render pass.
    EndRenderPass,
}

/// The commands of a frame that draws `vertex_count` vertices with a texture
/// array of `layers` layers: a clear-only pass for an empty scene, else one
/// draw covering the whole stream. Without textures no array is bound.
pub open spec fn frame_commands(vertex_count: usize, layers: usize) -> Seq<Command> {
    if vertex_count == 0 {
        seq![Command::BeginRenderPass, Command::EndRenderPass]
    } else if layers == 0 {
        seq![
            Command::BeginRenderPass,
            Command::BindCamera,
            Command::BindVertexBuffer,
            Command::Draw { vertex_count },
            Command::EndRenderPass,
        ]
    } else {
        seq![
            Command::BeginRenderPass,
            Command::BindCamera,
            Command::BindTextureArray { layers },
            Command::BindVertexBuffer,
            Command::Draw { vertex_count },
            Command::EndRenderPass,
        ]
    }
}

/// Builds the command sequence of `frame_commands`.
pub fn build_commands(vertex_count: usize, layers: usize) -> (r: Vec<Command>)
    ensures
        r@ == frame_commands(vertex_count, layers),
{
    let mut r: Vec<Command> = Vec::new();
    r.push(Command::BeginRenderPass);
    if vertex_count > 0 {
        r.push(Command::BindCamera);
        if layers > 0 {
            r.push(Command::BindTextureArray { layers });
        }
        r.push(Command::BindVertexBuffer);
        r.push(Command::Draw { vertex_count });
    }
    r.push(Command::EndRenderPass);
    assert(r@ =~= frame_commands(vertex_count, layers));
    r
}

/// `t` is untextured or names a slot below `n`.
pub open spec fn ref_below(t: TexRef, n: nat) -> bool {
    match t {
        TexRef::Slot(k) => k < n,
        TexRef::Untextured => true,
    }
}

/// `t` is untextured or names a live slot of `slots`.
pub open spec fn ref_live(t: TexRef, slots: Seq<Option<u32>>) -> bool {
    match t {
        TexRef::Slot(k) => k < slots.len() && slots[k as int] is Some,
        TexRef::Untextured => true,
    }
}

/// Every texture binding of model `m` names a slot below `n`.
pub open spec fn model_below(m: ModelView, n: nat) -> bool {
    forall|j: int| 0 <= j < m.vertices.len() ==> ref_below(#[trigger] m.vertices[j].tex_layer, n)
}

/// Every texture binding in `models` names a slot below `n`.
pub open spec fn slots_below(models: Seq<ModelView>, n: nat) -> bool {
    forall|i: int| 0 <= i < models.len() ==> model_below(#[trigger] models[i], n)
}

/// The remap table that compacting slot table `s` returns.
pub open spec fn remap_table(s: Seq<Option<u32>>) -> Seq<Option<usize>> {
    Seq::new(s.len(), |i: int| remap_entry(s, i))
}

/// After compaction, every texture binding of the remapped models is
/// untextured or names a live slot of the compacted table: never a slot that
/// was removed.
pub proof fn lemma_remap_points_live(s: Seq<Option<u32>>, models: Seq<ModelView>)
    ensures
        slots_live(models.map_values(|m: ModelView| remap_model(m, remap_table(s))), compacted(s)),
{
    let r = remap_table(s);
    let ms = models.map_values(|m: ModelView| remap_model(m, r));
    assert forall|i: int, j: int| 0 <= i < ms.len() && 0 <= j < ms[i].vertices.len()
        implies ref_live(#[trigger] ms[i].vertices[j].tex_layer, compacted(s)) by {
        let v = models[i].vertices[j];
        assert(ms[i] == remap_model(models[i], r));
        assert(ms[i].vertices[j] == remap_vertex(v, r));
        if let TexRef::Slot(k) = v.tex_layer {
            if k < r.len() && r[k as int] is Some {
                lemma_compacted_rank(s, k as int);
                lemma_compacted_len(s.take(k as int));
                assert(r[k as int] == remap_entry(s, k as int));
            }
        }
    }
}

/// Bindings below `n` are below any `n2 >= n`.
pub proof fn lemma_below_grow(s: Seq<ModelView>, n: nat, n2: nat)
    requires
        slots_below(s, n),
        n <= n2,
    ensures
        slots_below(s, n2),
{
    assert forall|i: int| 0 <= i < s.len() implies model_below(#[trigger] s[i], n2) by {
        assert(model_below(s[i], n));
        assert forall|j: int| 0 <= j < s[i].vertices.len() implies ref_below(#[trigger] s[i].vertices[j].tex_layer, n2) by {
            assert(ref_below(s[i].vertices[j].tex_layer, n));
        }
    }
}

/// A store whose models keep their vertices keeps its bindings below `n`.
pub proof fn lemma_below_update(a: Seq<ModelView>, b: Seq<ModelView>, n: nat)
    requires
        slots_below(a, n),
        a.len() == b.len(),
        forall|i: int| 0 <= i < a.len() ==> #[trigger] b[i].vertices == a[i].vertices,
    ensures
        slots_below(b, n),
{
    assert forall|i: int| 0 <= i < b.len() implies model_below(#[trigger] b[i], n) by {
        assert(model_below(a[i], n));
    }
}

/// Models that keep their vertices keep their bindings below `n`.
pub proof fn lemma_live_models_below(s: Seq<ModelView>, n: nat)
    requires
        slots_below(s, n),
    ensures
        slots_below(live_models(s), n),
    decreases s.len(),
{
    if s.len() > 0 {
        let d = s.drop_last();
        assert(slots_below(d, n)) by {
            assert forall|i: int| 0 <= i < d.len() implies model_below(#[trigger] d[i], n) by {
                assert(d[i] == s[i]);
            }
        }
        lemma_live_models_below(d, n);
        assert(model_below(s[s.len() - 1], n));
    }
}

/// Every texture binding in `models` is untextured or names a live slot of
/// `slots`.
pub open spec fn slots_live(models: Seq<ModelView>, slots: Seq<Option<u32>>) -> bool {
    forall|i: int, j: int|
        0 <= i < models.len() && 0 <= j < models[i].vertices.len()
            ==> ref_live(#[trigger] models[i].vertices[j].tex_layer, slots)
}

/// `b` is the scene that `rebuild_if_dirty` leaves from `a`, returning `r`.
pub open spec fn rebuild_step<T>(a: Scene<T>, b: Scene<T>, r: Option<usize>) -> bool {
    if a.textures().is_dirty() {
        let s = a.textures().slots();
        &&& b.textures().slots() == compacted(s)
        &&& b.textures().contents().len() == compacted(s).len()
        &&& !b.textures().is_dirty()
        &&& r == Some(compacted(s).len() as usize)
        &&& forall|i: int| 0 <= i < s.len() && (#[trigger] s[i]) is Some
            ==> b.textures().contents()[rank(s, i)] == a.textures().contents()[i]
        &&& b.models().models() == a.models().models().map_values(|m: ModelView| remap_model(m, remap_table(s)))
        &&& b.models().next_id() == a.models().next_id()
        &&& slots_live(b.models().models(), b.textures().slots())
    } else {
        r is None && b == a
    }
}

/// `b` is the scene that a frame leaves from `a`: the texture table
/// compacted if it was dirty, bindings remapped accordingly, and the models
/// that no handle refers to collected.
pub open spec fn frame_step<T>(a: Scene<T>, b: Scene<T>) -> bool {
    let s = a.textures().slots();
    let ms = a.models().models();
    &&& if a.textures().is_dirty() {
        &&& b.textures().slots() == compacted(s)
        &&& b.textures().contents().len() == compacted(s).len()
        &&& forall|i: int| 0 <= i < s.len() && (#[trigger] s[i]) is Some
            ==> b.textures().contents()[rank(s, i)] == a.textures().contents()[i]
        &&& b.models().models() == live_models(ms.map_values(|m: ModelView| remap_model(m, remap_table(s))))
        &&& slots_live(b.models().models(), b.textures().slots())
    } else {
        &&& b.textures() == a.textures()
        &&& b.models().models() == live_models(ms)
    }
    &&& !b.textures().is_dirty()
    &&& b.models().next_id() == a.models().next_id()
}

/// Rebuilding when nothing changed since the last rebuild does nothing: of
/// two rebuilds in a row, the second returns `None` and leaves the scene as
/// the first left it.
pub proof fn lemma_rebuild_idempotent<T>(a: Scene<T>, b: Scene<T>, c: Scene<T>, r1: Option<usize>, r2: Option<usize>)
    requires
        rebuild_step(a, b, r1),
        rebuild_step(b, c, r2),
    ensures
        a.textures().is_dirty() ==> r1 is Some,
        r2 is None,
        c == b,
{
}

/// Collection keeps every binding live.
pub proof fn lemma_live_models_live(s: Seq<ModelView>, slots: Seq<Option<u32>>)
    requires
        slots_live(s, slots),
    ensures
        slots_live(live_models(s), slots),
    decreases s.len(),
{
    if s.len() > 0 {
        let d = s.drop_last();
        assert(slots_live(d, slots)) by {
            assert forall|i: int, j: int| 0 <= i < d.len() && 0 <= j < d[i].vertices.len()
                implies ref_live(#[trigger] d[i].vertices[j].tex_layer, slots) by {
                assert(d[i] == s[i]);
            }
        }
        lemma_live_models_live(d, slots);
        let l = live_models(s);
        let ld = live_models(d);
        assert forall|i: int, j: int| 0 <= i < l.len() && 0 <= j < l[i].vertices.len()
            implies ref_live(#[trigger] l[i].vertices[j].tex_layer, slots) by {
            if i < ld.len() {
                assert(l[i] == ld[i]);
            } else {
                assert(l[i] == s[s.len() - 1]);
            }
        }
    }
}

/// What one frame hands to the GPU side.
pub struct Frame {
    /// `Some(n)` when the texture array had to be rebuilt, now with `n`
    /// layers (none at all for zero).
    pub rebuilt: Option<usize>,
    /// The contents of the shared vertex buffer, from offset 0.
    pub vertices: Vec<Vertex>,
    /// The frame's command sequence.
    pub commands: Vec<Command>,
}

/// The retained scene: the texture slot table and the model store, kept
/// consistent with each other. `T` is what a texture slot holds.
pub struct Scene<T> {
    texman: Texman<T>,
    modelman: Modelman,
}

impl<T> Scene<T> {
    pub closed spec fn textures(&self) -> Texman<T> {
        self.texman
    }

    pub closed spec fn models(&self) -> Modelman {
        self.modelman
    }

    /// Both tables are well formed and every model binds only slots of the
    /// texture table.
    pub open spec fn wf(&self) -> bool {
        &&& self.textures().wf()
        &&& self.models().wf()
        &&& slots_below(self.models().models(), self.textures().slots().len())
    }

    /// An empty scene.
    pub fn new() -> (r: Self)
        ensures
            r.wf(),
            r.textures().slots().len() == 0,
            r.textures().contents().len() == 0,
            !r.textures().is_dirty(),
            r.models().models().len() == 0,
            r.models().next_id() == 0,
    {
        Scene { texman: Texman::new(), modelman: Modelman::new() }
    }

    /// Uploads `payload` as texture `id` (see `Texman::upload`).
    pub fn upload_tex(&mut self, payload: T, id: u32)
        requires
            old(self).wf(),
        ensures
            final(self).wf(),
            final(self).textures().slots() == retire(old(self).textures().slots(), id).push(Some(id)),
            final(self).textures().contents() == old(self).textures().contents().push(payload),
            final(self).textures().is_dirty(),
            final(self).models() == old(self).models(),
    {
        self.texman.upload(payload, id);
        proof {
            lemma_below_grow(self.modelman.models(), old(self).texman.slots().len(), self.texman.slots().len());
        }
    }

    /// Removes texture `id` (see `Texman::remove`): `UnknownHandle` when it
    /// is not mapped, and then nothing changes.
    pub fn remove_tex(&mut self, outer: u32) -> (r: Result<(), RenderError>)
        requires
            old(self).wf(),
        ensures
            final(self).wf(),
            r is Err <==> !is_mapped(old(self).textures().slots(), outer),
            r matches Err(e) ==> e == RenderError::UnknownHandle && *final(self) == *old(self),
            r is Ok ==> final(self).textures().slots() == retire(old(self).textures().slots(), outer)
                && final(self).textures().contents() == old(self).textures().contents()
                && final(self).textures().is_dirty(),
            final(self).models() == old(self).models(),
    {
        let r = self.texman.remove(outer);
        proof {
            if r is Err {
                assert(self.texman == old(self).texman);
            }
        }
        r
    }

    /// Inserts `model` at depth `z` (see `Modelman::insert`), binding its
    /// textured faces through the texture table.
    pub fn insert_model(&mut self, z: i32, model: &Model) -> (r: Result<ModelHandle, RenderError>)
        requires
            old(self).wf(),
            well_indexed(*model),
        ensures
            final(self).wf(),
            final(self).textures() == old(self).textures(),
            model.tex_faces@.len() == 0 ==> r == Err::<ModelHandle, RenderError>(RenderError::EmptyGeometry),
            model.tex_faces@.len() > 0 && has_unknown_texture(*model, old(self).textures().slots())
                ==> r == Err::<ModelHandle, RenderError>(RenderError::UnknownHandle),
            model.tex_faces@.len() > 0 && !has_unknown_texture(*model, old(self).textures().slots())
                && old(self).models().next_id() == u64::MAX
                ==> r == Err::<ModelHandle, RenderError>(RenderError::CountExhausted),
            model.tex_faces@.len() > 0 && !has_unknown_texture(*model, old(self).textures().slots())
                && old(self).models().next_id() < u64::MAX ==> r is Ok,
            r is Err ==> *final(self) == *old(self),
            r matches Ok(h) ==> {
                let s = final(self).models().models();
                let n = old(self).models().models().len();
                &&& h.key() == old(self).models().next_id()
                &&& final(self).models().next_id() == old(self).models().next_id() + 1
                &&& s.len() == n + 1
                &&& s.take(n as int) == old(self).models().models()
                &&& s[n as int].id == h.key()
                &&& s[n as int].refs == 1
                &&& s[n as int].z == z
                &&& s[n as int].visible
                &&& is_compiled(*model, old(self).textures().slots(), s[n as int].vertices)
            },
    {
        let r = self.modelman.insert(z, model, &self.texman);
        proof {
            if r is Ok {
                let s = self.modelman.models();
                let n = old(self).modelman.models().len();
                let tl = self.texman.slots();
                let vs = s[n as int].vertices;
                assert forall|j: int| 0 <= j < vs.len() implies ref_below(#[trigger] vs[j].tex_layer, tl.len()) by {
                    let f = j / 3;
                    let c = j % 3;
                    assert(j == 3 * f + c);
                    assert(crate::model::is_face_vertex(*model, tl, f, c, vs[3 * f + c]));
                }
                assert forall|i: int| 0 <= i < s.len() implies model_below(#[trigger] s[i], tl.len()) by {
                    if i < n {
                        assert(s[i] == s.take(n as int)[i]);
                    }
                }
            } else {
                assert(self.modelman == old(self).modelman);
            }
        }
        r
    }

    /// Sets the depth key of a model (see `Modelman::set_z`).
    pub fn set_z(&mut self, handle: &ModelHandle, z: i32) -> (r: Result<(), RenderError>)
        requires
            old(self).wf(),
        ensures
            final(self).wf(),
            final(self).textures() == old(self).textures(),
            final(self).models().next_id() == old(self).models().next_id(),
            r is Err <==> !has_model(old(self).models().models(), handle.key()),
            r matches Err(e) ==> e == RenderError::StaleHandle && *final(self) == *old(self),
            forall|i: int| model_at(old(self).models().models(), handle.key(), i)
                ==> final(self).models().models() == old(self).models().models().update(
                    i,
                    ModelView { z, ..old(self).models().models()[i] },
                ),
    {
        let r = self.modelman.set_z(handle, z);
        proof {
            lemma_below_update(old(self).modelman.models(), self.modelman.models(), self.texman.slots().len());
        }
        r
    }

    /// Sets the depth key of the model `id` (see `Modelman::set_z_by_id`).
    pub fn set_z_by_id(&mut self, id: u64, z: i32) -> (r: Result<(), RenderError>)
        requires
            old(self).wf(),
        ensures
            final(self).wf(),
            final(self).textures() == old(self).textures(),
            final(self).models().next_id() == old(self).models().next_id(),
            r is Err <==> !has_model(old(self).models().models(), id),
            r matches Err(e) ==> e == RenderError::StaleHandle && *final(self) == *old(self),
            forall|i: int| model_at(old(self).models().models(), id, i)
                ==> final(self).models().models() == old(self).models().models().update(
                    i,
                    ModelView { z, ..old(self).models().models()[i] },
                ),
    {
        let r = self.modelman.set_z_by_id(id, z);
        proof {
            lemma_below_update(old(self).modelman.models(), self.modelman.models(), self.texman.slots().len());
        }
        r
    }

    /// Shows or hides a model (see `Modelman::set_visibility`).
    pub fn set_visibility(&mut self, handle: &ModelHandle, visible: bool) -> (r: Result<(), RenderError>)
        requires
            old(self).wf(),
        ensures
            final(self).wf(),
            final(self).textures() == old(self).textures(),
            final(self).models().next_id() == old(self).models().next_id(),
            r is Err <==> !has_model(old(self).models().models(), handle.key()),
            r matches Err(e) ==> e == RenderError::StaleHandle && *final(self) == *old(self),
            forall|i: int| model_at(old(self).models().models(), handle.key(), i)
                ==> final(self).models().models() == old(self).models().models().update(
                    i,
                    ModelView { visible, ..old(self).models().models()[i] },
                ),
    {
        let r = self.modelman.set_visibility(handle, visible);
        proof {
            lemma_below_update(old(self).modelman.models(), self.modelman.models(), self.texman.slots().len());
        }
        r
    }

    /// Shows or hides the model `id` (see `Modelman::set_visibility_by_id`).
    pub fn set_visibility_by_id(&mut self, id: u64, visible: bool) -> (r: Result<(), RenderError>)
        requires
            old(self).wf(),
        ensures
            final(self).wf(),
            final(self).textures() == old(self).textures(),
            final(self).models().next_id() == old(self).models().next_id(),
            r is Err <==> !has_model(old(self).models().models(), id),
            r matches Err(e) ==> e == RenderError::StaleHandle && *final(self) == *old(self),
            forall|i: int| model_at(old(self).models().models(), id, i)
                ==> final(self).models().models() == old(self).models().models().update(
                    i,
                    ModelView { visible, ..old(self).models().models()[i] },
                ),
    {
        let r = self.modelman.set_visibility_by_id(id, visible);
        proof {
            lemma_below_update(old(self).modelman.models(), self.modelman.models(), self.texman.slots().len());
        }
        r
    }

    /// A second handle to a model (see `Modelman::clone_handle`).
    pub fn clone_model(&mut self, handle: &ModelHandle) -> (r: Result<ModelHandle, RenderError>)
        requires
            old(self).wf(),
        ensures
            final(self).wf(),
            final(self).textures() == old(self).textures(),
            final(self).models().next_id() == old(self).models().next_id(),
            !has_model(old(self).models().models(), handle.key())
                ==> r == Err::<ModelHandle, RenderError>(RenderError::StaleHandle),
            r is Err ==> *final(self) == *old(self),
            forall|i: int| #[trigger] model_at(old(self).models().models(), handle.key(), i) ==> {
                let m = old(self).models().models()[i];
                &&& m.refs == u64::MAX ==> r == Err::<ModelHandle, RenderError>(RenderError::CountExhausted)
                &&& m.refs < u64::MAX ==> (r matches Ok(h) && h.key() == handle.key()
                    && final(self).models().models() == old(self).models().models().update(
                    i,
                    ModelView { refs: (m.refs + 1) as u64, ..m },
                ))
            },
    {
        let r = self.modelman.clone_handle(handle);
        proof {
            lemma_below_update(old(self).modelman.models(), self.modelman.models(), self.texman.slots().len());
        }
        r
    }

    /// Gives a handle back (see `Modelman::release`).
    pub fn release_model(&mut self, handle: ModelHandle)
        requires
            old(self).wf(),
        ensures
            final(self).wf(),
            final(self).textures() == old(self).textures(),
            final(self).models().next_id() == old(self).models().next_id(),
            !has_model(old(self).models().models(), handle.key()) ==> *final(self) == *old(self),
            forall|i: int| #[trigger] model_at(old(self).models().models(), handle.key(), i) ==> {
                let m = old(self).models().models()[i];
                final(self).models().models() == old(self).models().models().update(
                    i,
                    ModelView { refs: if m.refs > 0 { (m.refs - 1) as u64 } else { 0 }, ..m },
                )
            },
    {
        let ghost key = handle.key();
        self.modelman.release(handle);
        proof {
            lemma_below_update(old(self).modelman.models(), self.modelman.models(), self.texman.slots().len());
            if !has_model(old(self).modelman.models(), key) {
                assert(self.modelman == old(self).modelman);
            }
        }
    }

    /// Drops the model `id` at once; true if it was stored.
    pub fn remove(&mut self, id: u64) -> (r: bool)
        requires
            old(self).wf(),
        ensures
            final(self).wf(),
            final(self).textures() == old(self).textures(),
            final(self).models().next_id() == old(self).models().next_id(),
            r == has_model(old(self).models().models(), id),
            !r ==> *final(self) == *old(self),
            forall|i: int| #[trigger] model_at(old(self).models().models(), id, i)
                ==> final(self).models().models() == old(self).models().models().remove(i),
    {
        let r = self.modelman.remove(id);
        proof {
            let a = old(self).modelman.models();
            let b = self.modelman.models();
            let n = self.texman.slots().len();
            if r {
                let i = choose|i: int| model_at(a, id, i);
                assert forall|k: int| 0 <= k < b.len() implies model_below(#[trigger] b[k], n) by {
                    if k < i {
                        assert(b[k] == a[k]);
                    } else {
                        assert(b[k] == a[k + 1]);
                    }
                }
            } else {
                assert(self.modelman == old(self).modelman);
            }
        }
        r
    }

    /// If the texture table changed since the last rebuild: compacts it,
    /// rewrites every model's slot bindings through the remap table, and
    /// returns the new slot count, the size the texture array is rebuilt to.
    /// Otherwise does nothing and returns `None`.
    pub fn rebuild_if_dirty(&mut self) -> (r: Option<usize>)
        requires
            old(self).wf(),
        ensures
            final(self).wf(),
            rebuild_step(*old(self), *final(self), r),
    {
        if !self.texman.get_dirty() {
            return None;
        }
        let ghost s = self.texman.slots();
        let remap = self.texman.compact();
        assert(remap@ =~= remap_table(s));
        self.modelman.map_tex(&remap);
        proof {
            lemma_remap_points_live(s, old(self).modelman.models());
            let ms = self.modelman.models();
            let n = self.texman.slots().len();
            assert forall|i: int| 0 <= i < ms.len() implies model_below(#[trigger] ms[i], n) by {
                assert forall|j: int| 0 <= j < ms[i].vertices.len() implies ref_below(#[trigger] ms[i].vertices[j].tex_layer, n) by {
                    assert(ref_live(ms[i].vertices[j].tex_layer, self.texman.slots()));
                }
            }
        }
        Some(self.texman.slot_count())
    }

    /// Builds one frame: rebuilds the texture table if it changed, collects
    /// the models that no handle refers to, and compiles the visible models'
    /// vertex stream and the frame's commands. `BufferCapacityExceeded` when
    /// the stream does not fit the vertex buffer.
    pub fn compile_frame(&mut self) -> (r: Result<Frame, RenderError>)
        requires
            old(self).wf(),
        ensures
            final(self).wf(),
            frame_step(*old(self), *final(self)),
            exists|ord: Seq<usize>| is_draw_order(final(self).models().models(), ord),
            forall|ord: Seq<usize>| #[trigger] is_draw_order(final(self).models().models(), ord) ==> {
                let st = stream(final(self).models().models(), ord);
                &&& r is Err <==> st.len() > BUFSIZE
                &&& r matches Ok(f) ==> f.vertices@ == st
                    && f.commands@ == frame_commands(f.vertices@.len() as usize, final(self).textures().slots().len() as usize)
                    && f.rebuilt == (if old(self).textures().is_dirty() {
                    Some(final(self).textures().slots().len() as usize)
                } else {
                    None
                })
            },
            r matches Err(e) ==> e == RenderError::BufferCapacityExceeded,
    {
        let rebuilt = self.rebuild_if_dirty();
        let ghost mid = self.modelman.models();
        let vertices = self.modelman.write_buffer();
        proof {
            lemma_live_models_below(mid, self.texman.slots().len());
            if old(self).texman.is_dirty() {
                lemma_remap_points_live(old(self).texman.slots(), old(self).modelman.models());
                lemma_live_models_live(mid, self.texman.slots());
            }
        }
        match vertices {
            Ok(vertices) => {
                let commands = build_commands(vertices.len(), self.texman.slot_count());
                Ok(Frame { rebuilt, vertices, commands })
            },
            Err(e) => Err(e),
        }
    }

    /// The texture slot table.
    pub fn texman(&self) -> (r: &Texman<T>)
        ensures
            *r == self.textures(),
    {
        &self.texman
    }

    /// The model store.
    pub fn modelman(&self) -> (r: &Modelman)
        ensures
            *r == self.models(),
    {
        &self.modelman
    }
}

} // verus!
