use vstd::prelude::*;

use crate::error::RenderError;
use crate::model::{compile_model, has_unknown_texture, is_compiled, well_indexed, Model, TexRef, Vertex};
use crate::texman::Texman;

verus! {

/// Capacity of the shared vertex buffer, in vertices.
pub const BUFSIZE: usize = 1 << 24;

/// A counted reference to one stored model. Handles are made only by
/// `Modelman::insert` and `Modelman::clone_handle`, and given back with
/// `Modelman::release`; the model becomes collectible when its count of
/// outstanding handles reaches zero.
#[derive(Debug, PartialEq, Eq, Hash)]
pub struct ModelHandle {
    id: u64,
}

impl ModelHandle {
    /// The id of the model this handle refers to.
    pub closed spec fn key(&self) -> u64 {
        self.id
    }

    /// The id of the model this handle refers to.
    pub fn id(&self) -> (r: u64)
        ensures
            r == self.key(),
    {
        self.id
    }
}

/// A stored model: its compiled vertices and its drawing state.
pub struct CompiledModel {
    pub id: u64,
    pub refs: u64,
    pub z: i32,
    pub visible: bool,
    pub vertices: Vec<Vertex>,
}

/// What a stored model is, mathematically.
pub struct ModelView {
    pub id: u64,
    pub refs: u64,
    pub z: i32,
    pub visible: bool,
    pub vertices: Seq<Vertex>,
}

impl View for CompiledModel {
    type V = ModelView;

    open spec fn view(&self) -> ModelView {
        ModelView { id: self.id, refs: self.refs, z: self.z, visible: self.visible, vertices: self.vertices@ }
    }
}

/// The views of a sequence of stored models.
pub open spec fn views(s: Seq<CompiledModel>) -> Seq<ModelView> {
    s.map_values(|m: CompiledModel| m@)
}

/// Position `i` of `s` holds the model `id`.
pub open spec fn model_at(s: Seq<ModelView>, id: u64, i: int) -> bool {
    0 <= i < s.len() && s[i].id == id
}

/// Some model of `s` has id `id`.
pub open spec fn has_model(s: Seq<ModelView>, id: u64) -> bool {
    exists|i: int| model_at(s, id, i)
}

/// The models of `s` that some handle still refers to, in order.
pub open spec fn live_models(s: Seq<ModelView>) -> Seq<ModelView>
    decreases s.len(),
{
    if s.len() == 0 {
        Seq::empty()
    } else if s.last().refs > 0 {
        live_models(s.drop_last()).push(s.last())
    } else {
        live_models(s.drop_last())
    }
}

/// A texture binding after compaction with remap table `remap`: a slot that
/// was dropped, or that the table does not cover, becomes untextured.
pub open spec fn remap_ref(t: TexRef, remap: Seq<Option<usize>>) -> TexRef {
    match t {
        TexRef::Slot(k) => if k < remap.len() && remap[k as int] is Some {
            TexRef::Slot(remap[k as int]->0)
        } else {
            TexRef::Untextured
        },
        TexRef::Untextured => TexRef::Untextured,
    }
}

/// Vertex `v` with its texture binding remapped.
pub open spec fn remap_vertex(v: Vertex, remap: Seq<Option<usize>>) -> Vertex {
    Vertex { tex_layer: remap_ref(v.tex_layer, remap), ..v }
}

/// Model `m` with every vertex's texture binding remapped.
pub open spec fn remap_model(m: ModelView, remap: Seq<Option<usize>>) -> ModelView {
    ModelView { vertices: m.vertices.map_values(|v: Vertex| remap_vertex(v, remap)), ..m }
}

/// Owns every compiled model, in insertion order, with its depth key,
/// visibility and count of outstanding handles.
pub struct Modelman {
    id_alloc: u64,
    models: Vec<CompiledModel>,
}

impl Modelman {
    /// The stored models, in insertion order.
    pub closed spec fn models(&self) -> Seq<ModelView> {
        views(self.models@)
    }

    /// The id that the next inserted model gets.
    pub closed spec fn next_id(&self) -> u64 {
        self.id_alloc
    }

    /// Ids increase in insertion order and stay below the next id.
    pub closed spec fn wf(&self) -> bool {
        ids_ordered(self.models(), self.id_alloc)
    }

    /// An empty store.
    pub fn new() -> (r: Self)
        ensures
            r.wf(),
            r.models() == Seq::<ModelView>::empty(),
            r.next_id() == 0,
    {
        let r = Modelman { id_alloc: 0, models: Vec::new() };
        assert(r.models() =~= Seq::<ModelView>::empty());
        r
    }

    /// Number of stored models.
    pub fn len(&self) -> (r: usize)
        ensures
            r == self.models().len(),
    {
        self.models.len()
    }

    /// Position of the model `id`, if it is stored.
    fn find(&self, id: u64) -> (r: Option<usize>)
        ensures
            r matches Some(i) ==> model_at(self.models(), id, i as int),
            r is None ==> !has_model(self.models(), id),
    {
        let mut i: usize = 0;
        while i < self.models.len()
            invariant
                i <= self.models@.len(),
                forall|k: int| 0 <= k < i ==> self.models()[k].id != id,
            decreases self.models@.len() - i,
        {
            if self.models[i].id == id {
                return Some(i);
            }
            i += 1;
        }
        None
    }

    /// Inserts `model` at depth `z`, visible, with one outstanding handle,
    /// which is returned. Fails with `EmptyGeometry` for a model without
    /// faces, with `UnknownHandle` when a textured face names a texture that
    /// `tex` does not map, and with `CountExhausted` when every id is used;
    /// on failure nothing changes.
    pub fn insert<T>(&mut self, z: i32, model: &Model, tex: &Texman<T>) -> (r: Result<ModelHandle, RenderError>)
        requires
            old(self).wf(),
            tex.wf(),
            well_indexed(*model),
        ensures
            final(self).wf(),
            model.tex_faces@.len() == 0 ==> r == Err::<ModelHandle, RenderError>(RenderError::EmptyGeometry),
            model.tex_faces@.len() > 0 && has_unknown_texture(*model, tex.slots())
                ==> r == Err::<ModelHandle, RenderError>(RenderError::UnknownHandle),
            model.tex_faces@.len() > 0 && !has_unknown_texture(*model, tex.slots()) && old(self).next_id() == u64::MAX
                ==> r == Err::<ModelHandle, RenderError>(RenderError::CountExhausted),
            model.tex_faces@.len() > 0 && !has_unknown_texture(*model, tex.slots()) && old(self).next_id() < u64::MAX
                ==> r is Ok,
            r is Err ==> *final(self) == *old(self),
            r matches Ok(h) ==> {
                let s = final(self).models();
                let n = old(self).models().len();
                &&& h.key() == old(self).next_id()
                &&& final(self).next_id() == old(self).next_id() + 1
                &&& s.len() == n + 1
                &&& s.take(n as int) == old(self).models()
                &&& s[n as int].id == h.key()
                &&& s[n as int].refs == 1
                &&& s[n as int].z == z
                &&& s[n as int].visible
                &&& is_compiled(*model, tex.slots(), s[n as int].vertices)
            },
    {
        if model.tex_faces.len() == 0 {
            return Err(RenderError::EmptyGeometry);
        }
        let vertices = match compile_model(model, tex) {
            Ok(v) => v,
            Err(e) => {
                return Err(e);
            },
        };
        if self.id_alloc == u64::MAX {
            return Err(RenderError::CountExhausted);
        }
        let id = self.id_alloc;
        let ghost s = self.models@;
        self.models.push(CompiledModel { id, refs: 1, z, visible: true, vertices });
        self.id_alloc = id + 1;
        proof {
            assert(self.models() =~= views(s).push(self.models@.last()@));
            assert(self.models().take(s.len() as int) =~= views(s));
        }
        Ok(ModelHandle { id })
    }

    /// Sets the depth key of the model `id`; `StaleHandle` if it is not
    /// stored, and then nothing changes.
    pub fn set_z_by_id(&mut self, id: u64, z: i32) -> (r: Result<(), RenderError>)
        requires
            old(self).wf(),
        ensures
            final(self).wf(),
            final(self).next_id() == old(self).next_id(),
            r is Err <==> !has_model(old(self).models(), id),
            r matches Err(e) ==> e == RenderError::StaleHandle && *final(self) == *old(self),
            forall|i: int| model_at(old(self).models(), id, i)
                ==> final(self).models() == old(self).models().update(i, ModelView { z, ..old(self).models()[i] }),
    {
        match self.find(id) {
            None => Err(RenderError::StaleHandle),
            Some(i) => {
                let ghost s = self.models();
                let mut m = self.models.remove(i);
                m.z = z;
                self.models.insert(i, m);
                proof {
                    lemma_model_at_unique(s, old(self).id_alloc, id, i as int);
                    assert(self.models() =~= s.update(i as int, ModelView { z, ..s[i as int] }));
                }
                Ok(())
            },
        }
    }

    /// Sets the depth key of the model `handle` refers to; `StaleHandle` if
    /// it was collected, and then nothing changes.
    pub fn set_z(&mut self, handle: &ModelHandle, z: i32) -> (r: Result<(), RenderError>)
        requires
            old(self).wf(),
        ensures
            final(self).wf(),
            final(self).next_id() == old(self).next_id(),
            r is Err <==> !has_model(old(self).models(), handle.key()),
            r matches Err(e) ==> e == RenderError::StaleHandle && *final(self) == *old(self),
            forall|i: int| model_at(old(self).models(), handle.key(), i)
                ==> final(self).models() == old(self).models().update(i, ModelView { z, ..old(self).models()[i] }),
    {
        self.set_z_by_id(handle.id, z)
    }

    /// Shows or hides the model `id`; `StaleHandle` if it is not stored, and
    /// then nothing changes.
    pub fn set_visibility_by_id(&mut self, id: u64, visible: bool) -> (r: Result<(), RenderError>)
        requires
            old(self).wf(),
        ensures
            final(self).wf(),
            final(self).next_id() == old(self).next_id(),
            r is Err <==> !has_model(old(self).models(), id),
            r matches Err(e) ==> e == RenderError::StaleHandle && *final(self) == *old(self),
            forall|i: int| model_at(old(self).models(), id, i)
                ==> final(self).models() == old(self).models().update(i, ModelView { visible, ..old(self).models()[i] }),
    {
        match self.find(id) {
            None => Err(RenderError::StaleHandle),
            Some(i) => {
                let ghost s = self.models();
                let mut m = self.models.remove(i);
                m.visible = visible;
                self.models.insert(i, m);
                proof {
                    lemma_model_at_unique(s, old(self).id_alloc, id, i as int);
                    assert(self.models() =~= s.update(i as int, ModelView { visible, ..s[i as int] }));
                }
                Ok(())
            },
        }
    }

    /// Shows or hides the model `handle` refers to; `StaleHandle` if it was
    /// collected, and then nothing changes.
    pub fn set_visibility(&mut self, handle: &ModelHandle, visible: bool) -> (r: Result<(), RenderError>)
        requires
            old(self).wf(),
        ensures
            final(self).wf(),
            final(self).next_id() == old(self).next_id(),
            r is Err <==> !has_model(old(self).models(), handle.key()),
            r matches Err(e) ==> e == RenderError::StaleHandle && *final(self) == *old(self),
            forall|i: int| model_at(old(self).models(), handle.key(), i)
                ==> final(self).models() == old(self).models().update(i, ModelView { visible, ..old(self).models()[i] }),
    {
        self.set_visibility_by_id(handle.id, visible)
    }

    /// A second handle to the model `handle` refers to; its count of handles
    /// goes up by one. `StaleHandle` if the model was collected,
    /// `CountExhausted` if its count is at its limit; then nothing changes.
    pub fn clone_handle(&mut self, handle: &ModelHandle) -> (r: Result<ModelHandle, RenderError>)
        requires
            old(self).wf(),
        ensures
            final(self).wf(),
            final(self).next_id() == old(self).next_id(),
            !has_model(old(self).models(), handle.key())
                ==> r == Err::<ModelHandle, RenderError>(RenderError::StaleHandle),
            r is Err ==> *final(self) == *old(self),
            forall|i: int| #[trigger] model_at(old(self).models(), handle.key(), i) ==> {
                let m = old(self).models()[i];
                &&& m.refs == u64::MAX ==> r == Err::<ModelHandle, RenderError>(RenderError::CountExhausted)
                &&& m.refs < u64::MAX ==> (r matches Ok(h) && h.key() == handle.key()
                    && final(self).models() == old(self).models().update(i, ModelView { refs: (m.refs + 1) as u64, ..m }))
            },
    {
        match self.find(handle.id) {
            None => Err(RenderError::StaleHandle),
            Some(i) => {
                let ghost s = self.models();
                proof {
                    lemma_model_at_unique(s, old(self).id_alloc, handle.key(), i as int);
                }
                if self.models[i].refs == u64::MAX {
                    return Err(RenderError::CountExhausted);
                }
                let mut m = self.models.remove(i);
                m.refs = m.refs + 1;
                self.models.insert(i, m);
                proof {
                    assert(self.models() =~= s.update(i as int, ModelView { refs: (s[i as int].refs + 1) as u64, ..s[i as int] }));
                }
                Ok(ModelHandle { id: handle.id })
            },
        }
    }

    /// Gives a handle back: the count of handles of its model goes down by
    /// one. The model stays stored until the next `gc`.
    pub fn release(&mut self, handle: ModelHandle)
        requires
            old(self).wf(),
        ensures
            final(self).wf(),
            final(self).next_id() == old(self).next_id(),
            !has_model(old(self).models(), handle.key()) ==> *final(self) == *old(self),
            forall|i: int| #[trigger] model_at(old(self).models(), handle.key(), i) ==> {
                let m = old(self).models()[i];
                final(self).models() == old(self).models().update(
                    i,
                    ModelView { refs: if m.refs > 0 { (m.refs - 1) as u64 } else { 0 }, ..m },
                )
            },
    {
        match self.find(handle.id) {
            None => {},
            Some(i) => {
                let ghost s = self.models();
                proof {
                    lemma_model_at_unique(s, old(self).id_alloc, handle.key(), i as int);
                }
                let mut m = self.models.remove(i);
                if m.refs > 0 {
                    m.refs = m.refs - 1;
                }
                self.models.insert(i, m);
                proof {
                    let mi = s[i as int];
                    assert(self.models() =~= s.update(
                        i as int,
                        ModelView { refs: if mi.refs > 0 { (mi.refs - 1) as u64 } else { 0 }, ..mi },
                    ));
                }
            },
        }
    }

    /// Drops the model `id` at once, whatever its count of handles; true if
    /// it was stored.
    pub fn remove(&mut self, id: u64) -> (r: bool)
        requires
            old(self).wf(),
        ensures
            final(self).wf(),
            final(self).next_id() == old(self).next_id(),
            r == has_model(old(self).models(), id),
            !r ==> *final(self) == *old(self),
            forall|i: int| #[trigger] model_at(old(self).models(), id, i)
                ==> final(self).models() == old(self).models().remove(i),
    {
        match self.find(id) {
            None => false,
            Some(i) => {
                let ghost s = self.models();
                proof {
                    lemma_model_at_unique(s, old(self).id_alloc, id, i as int);
                }
                let _ = self.models.remove(i);
                proof {
                    assert(self.models() =~= s.remove(i as int));
                    let t = self.models();
                    assert forall|a: int, b: int| 0 <= a < b < t.len() implies #[trigger] t[a].id < #[trigger] t[b].id by {
                        let a2 = if a < i { a } else { a + 1 };
                        let b2 = if b < i { b } else { b + 1 };
                        assert(t[a] == s[a2] && t[b] == s[b2]);
                    }
                }
                true
            },
        }
    }

    /// Drops every model that no handle refers to any more; the others stay,
    /// in order, unchanged.
    pub fn gc(&mut self)
        requires
            old(self).wf(),
        ensures
            final(self).wf(),
            final(self).next_id() == old(self).next_id(),
            final(self).models() == live_models(old(self).models()),
    {
        let ghost s = self.models();
        let n = self.models.len();
        let mut rest: Vec<CompiledModel> = Vec::new();
        rest.append(&mut self.models);
        let ghost orig = rest@;
        let mut i: usize = 0;
        while i < n
            invariant
                n == s.len(),
                s == views(orig),
                ids_ordered(s, self.id_alloc),
                self.id_alloc == old(self).id_alloc,
                i <= n,
                rest@ == orig.subrange(i as int, n as int),
                self.models() == live_models(s.take(i as int)),
                forall|k: int| 0 <= k < self.models().len() ==> #[trigger] self.models()[k].id < self.id_alloc,
                forall|k: int| 0 <= k < self.models().len() ==> #[trigger] self.models()[k].id < s[i as int - 1].id + 1
                    || i == 0,
                forall|a: int, b: int| 0 <= a < b < self.models().len()
                    ==> #[trigger] self.models()[a].id < #[trigger] self.models()[b].id,
            decreases n - i,
        {
            let ghost before = self.models@;
            let m = rest.remove(0);
            proof {
                assert(s.take(i + 1).drop_last() =~= s.take(i as int));
                assert(m@ == s[i as int]);
                assert(rest@ =~= orig.subrange(i + 1, n as int));
                if i > 0 {
                    assert(s[i as int - 1].id < s[i as int].id);
                }
            }
            if m.refs > 0 {
                self.models.push(m);
                proof {
                    assert(self.models() =~= views(before).push(s[i as int]));
                }
            }
            i += 1;
        }
        proof {
            assert(s.take(n as int) =~= s);
        }
    }

    /// The positions of the visible models, stably sorted by depth key.
    pub fn draw_order(&self) -> (r: Vec<usize>)
        ensures
            is_draw_order(self.models(), r@),
    {
        let ghost s = self.models();
        let n = self.models.len();
        let mut ord: Vec<usize> = Vec::new();
        let mut i: usize = 0;
        while i < n
            invariant
                n == s.len(),
                s == self.models(),
                i <= n,
                forall|k: int| 0 <= k < ord@.len() ==> (#[trigger] ord@[k]) < i && s[ord@[k] as int].visible,
                forall|j: int| 0 <= j < i && (#[trigger] s[j]).visible ==> ord@.contains(j as usize),
                draw_sorted(s, ord@),
            decreases n - i,
        {
            if self.models[i].visible {
                let z = self.models[i].z;
                let mut p: usize = 0;
                while p < ord.len() && self.models[ord[p]].z <= z
                    invariant
                        n == s.len(),
                        s == self.models(),
                        i < n,
                        z == s[i as int].z,
                        p <= ord@.len(),
                        forall|k: int| 0 <= k < ord@.len() ==> (#[trigger] ord@[k]) < i,
                        forall|q: int| 0 <= q < p ==> s[(#[trigger] ord@[q]) as int].z <= z,
                    decreases ord@.len() - p,
                {
                    p += 1;
                }
                let ghost o = ord@;
                proof {
                    assert forall|q: int| p <= q < o.len() implies s[(#[trigger] o[q]) as int].z > z by {
                        if q > p {
                            assert(draw_before(s, o[p as int] as int, o[q] as int));
                        }
                    }
                }
                ord.insert(p, i);
                proof {
                    let o2 = ord@;
                    assert(o2 == o.insert(p as int, i));
                    assert forall|k: int| 0 <= k < o2.len() implies (#[trigger] o2[k]) < i + 1 && s[o2[k] as int].visible by {
                        if k < p {
                            assert(o2[k] == o[k]);
                        } else if k > p {
                            assert(o2[k] == o[k - 1]);
                        }
                    }
                    assert forall|j: int| 0 <= j < i + 1 && (#[trigger] s[j]).visible implies o2.contains(j as usize) by {
                        if j == i {
                            assert(o2[p as int] == i);
                        } else {
                            assert(o.contains(j as usize));
                            let k = choose|k: int| 0 <= k < o.len() && o[k] == j as usize;
                            if k < p {
                                assert(o2[k] == j as usize);
                            } else {
                                assert(o2[k + 1] == j as usize);
                            }
                        }
                    }
                    assert forall|a: int, b: int| 0 <= a < b < o2.len() implies draw_before(s, o2[a] as int, o2[b] as int) by {
                        if a < p && b < p {
                            assert(o2[a] == o[a] && o2[b] == o[b]);
                        } else if a < p && b == p {
                            assert(o2[a] == o[a]);
                        } else if a < p {
                            assert(o2[a] == o[a] && o2[b] == o[b - 1]);
                        } else if a == p {
                            assert(o2[b] == o[b - 1]);
                        } else {
                            assert(o2[a] == o[a - 1] && o2[b] == o[b - 1]);
                        }
                    }
                }
            } else {
                proof {
                    assert forall|j: int| 0 <= j < i + 1 && (#[trigger] s[j]).visible implies ord@.contains(j as usize) by {
                    }
                }
            }
            i += 1;
        }
        ord
    }

    /// The vertex stream of one frame: the vertices of every visible model,
    /// models in drawing order (see `is_draw_order`). `BufferCapacityExceeded`
    /// when the stream does not fit the vertex buffer.
    pub fn compile_draw_list(&self) -> (r: Result<Vec<Vertex>, RenderError>)
        ensures
            exists|ord: Seq<usize>| is_draw_order(self.models(), ord),
            forall|ord: Seq<usize>| #[trigger] is_draw_order(self.models(), ord) ==> {
                &&& r is Err <==> stream(self.models(), ord).len() > BUFSIZE
                &&& r matches Ok(v) ==> v@ == stream(self.models(), ord)
            },
            r matches Err(e) ==> e == RenderError::BufferCapacityExceeded,
    {
        let ghost s = self.models();
        let ord = self.draw_order();
        let mut out: Vec<Vertex> = Vec::new();
        let mut k: usize = 0;
        while k < ord.len()
            invariant
                s == self.models(),
                is_draw_order(s, ord@),
                k <= ord@.len(),
                out@ == stream(s, ord@.take(k as int)),
                out@.len() <= BUFSIZE,
            decreases ord@.len() - k,
        {
            let m = &self.models[ord[k]];
            proof {
                assert(ord@.take(k + 1).drop_last() =~= ord@.take(k as int));
                assert(m@ == s[ord@[k as int] as int]);
            }
            if m.vertices.len() > BUFSIZE - out.len() {
                proof {
                    assert(is_draw_order(s, ord@));
                    lemma_stream_prefix(s, ord@, k + 1);
                    assert forall|o: Seq<usize>| #[trigger] is_draw_order(s, o) implies stream(s, o).len() > BUFSIZE by {
                        lemma_draw_order_unique(s, o, ord@);
                    }
                }
                return Err(RenderError::BufferCapacityExceeded);
            }
            let ghost before = out@;
            let mut j: usize = 0;
            while j < m.vertices.len()
                invariant
                    j <= m.vertices@.len(),
                    out@ == before + m.vertices@.take(j as int),
                decreases m.vertices@.len() - j,
            {
                out.push(m.vertices[j]);
                proof {
                    assert(m.vertices@.take(j + 1) =~= m.vertices@.take(j as int).push(m.vertices@[j as int]));
                }
                j += 1;
            }
            proof {
                assert(m.vertices@.take(j as int) =~= m.vertices@);
            }
            k += 1;
        }
        proof {
            assert(is_draw_order(s, ord@));
            assert(ord@.take(k as int) =~= ord@);
            assert forall|o: Seq<usize>| #[trigger] is_draw_order(s, o) implies o == ord@ by {
                lemma_draw_order_unique(s, o, ord@);
            }
        }
        Ok(out)
    }

    /// Collects unreferenced models, then compiles the frame's vertex stream
    /// (see `compile_draw_list`).
    pub fn write_buffer(&mut self) -> (r: Result<Vec<Vertex>, RenderError>)
        requires
            old(self).wf(),
        ensures
            final(self).wf(),
            final(self).next_id() == old(self).next_id(),
            final(self).models() == live_models(old(self).models()),
            exists|ord: Seq<usize>| is_draw_order(final(self).models(), ord),
            forall|ord: Seq<usize>| #[trigger] is_draw_order(final(self).models(), ord) ==> {
                &&& r is Err <==> stream(final(self).models(), ord).len() > BUFSIZE
                &&& r matches Ok(v) ==> v@ == stream(final(self).models(), ord)
            },
            r matches Err(e) ==> e == RenderError::BufferCapacityExceeded,
    {
        self.gc();
        self.compile_draw_list()
    }

    /// Rewrites every vertex's texture slot through `remap`, the table that a
    /// compaction of the texture slots returned; a slot that was dropped
    /// becomes untextured.
    pub fn map_tex(&mut self, remap: &Vec<Option<usize>>)
        requires
            old(self).wf(),
        ensures
            final(self).wf(),
            final(self).next_id() == old(self).next_id(),
            final(self).models() == old(self).models().map_values(|m: ModelView| remap_model(m, remap@)),
    {
        let ghost s = self.models();
        let n = self.models.len();
        let mut rest: Vec<CompiledModel> = Vec::new();
        rest.append(&mut self.models);
        let ghost orig = rest@;
        let mut i: usize = 0;
        while i < n
            invariant
                n == s.len(),
                s == views(orig),
                ids_ordered(s, self.id_alloc),
                self.id_alloc == old(self).id_alloc,
                i <= n,
                rest@ == orig.subrange(i as int, n as int),
                self.models() == s.take(i as int).map_values(|m: ModelView| remap_model(m, remap@)),
            decreases n - i,
        {
            let ghost before = self.models@;
            let mut m = rest.remove(0);
            proof {
                assert(m@ == s[i as int]);
                assert(rest@ =~= orig.subrange(i + 1, n as int));
            }
            let mut vertices: Vec<Vertex> = Vec::new();
            let mut j: usize = 0;
            while j < m.vertices.len()
                invariant
                    j <= m.vertices@.len(),
                    vertices@ == m.vertices@.take(j as int).map_values(|v: Vertex| remap_vertex(v, remap@)),
                decreases m.vertices@.len() - j,
            {
                let v = m.vertices[j];
                let tex_layer = remap_tex(v.tex_layer, remap);
                vertices.push(Vertex { tex_layer, ..v });
                proof {
                    assert(vertices@ =~= m.vertices@.take(j + 1).map_values(|v: Vertex| remap_vertex(v, remap@)));
                }
                j += 1;
            }
            proof {
                assert(m.vertices@.take(j as int) =~= m.vertices@);
            }
            let ghost mv = m@;
            m.vertices = vertices;
            self.models.push(m);
            proof {
                assert(m@ == remap_model(mv, remap@));
                assert(self.models() =~= views(before).push(m@));
                assert(s.take(i + 1).map_values(|m: ModelView| remap_model(m, remap@)) =~= s.take(i as int).map_values(
                    |m: ModelView| remap_model(m, remap@),
                ).push(remap_model(s[i as int], remap@)));
                assert(self.models() =~= s.take(i + 1).map_values(|m: ModelView| remap_model(m, remap@)));
            }
            i += 1;
        }
        proof {
            assert(s.take(n as int) =~= s);
            let t = self.models();
            assert forall|a: int| 0 <= a < t.len() implies #[trigger] t[a].id == s[a].id by {}
        }
    }
}

/// `t` with its slot remapped (see `remap_ref`).
fn remap_tex(t: TexRef, remap: &Vec<Option<usize>>) -> (r: TexRef)
    ensures
        r == remap_ref(t, remap@),
{
    match t {
        TexRef::Slot(k) => {
            if k < remap.len() {
                match remap[k] {
                    Some(n) => TexRef::Slot(n),
                    None => TexRef::Untextured,
                }
            } else {
                TexRef::Untextured
            }
        },
        TexRef::Untextured => TexRef::Untextured,
    }
}

/// Model `i` of `s` is drawn before model `j`: lower depth key first, and
/// insertion order among equal keys.
pub open spec fn draw_before(s: Seq<ModelView>, i: int, j: int) -> bool {
    s[i].z < s[j].z || (s[i].z == s[j].z && i < j)
}

/// `ord` lists positions of `s` strictly in drawing order.
pub open spec fn draw_sorted(s: Seq<ModelView>, ord: Seq<usize>) -> bool {
    forall|a: int, b: int|
        #![trigger ord[a], ord[b]]
        0 <= a < b < ord.len() ==> draw_before(s, ord[a] as int, ord[b] as int)
}

/// `ord` is the drawing order of `s`: each visible model once, none of the
/// hidden ones, stably sorted by depth key.
pub open spec fn is_draw_order(s: Seq<ModelView>, ord: Seq<usize>) -> bool {
    &&& forall|k: int| 0 <= k < ord.len() ==> (#[trigger] ord[k]) < s.len() && s[ord[k] as int].visible
    &&& forall|i: int| 0 <= i < s.len() && (#[trigger] s[i]).visible ==> ord.contains(i as usize)
    &&& draw_sorted(s, ord)
}

/// The vertices of the models at positions `ord` of `s`, one model after the
/// other.
pub open spec fn stream(s: Seq<ModelView>, ord: Seq<usize>) -> Seq<Vertex>
    decreases ord.len(),
{
    if ord.len() == 0 {
        Seq::empty()
    } else {
        stream(s, ord.drop_last()) + s[ord.last() as int].vertices
    }
}

/// Two sequences of positions, each strictly in drawing order, that hold
/// the same positions are equal.
pub proof fn lemma_draw_sorted_unique(s: Seq<ModelView>, o1: Seq<usize>, o2: Seq<usize>)
    requires
        draw_sorted(s, o1),
        draw_sorted(s, o2),
        forall|x: usize| o1.contains(x) <==> o2.contains(x),
    ensures
        o1 == o2,
    decreases o1.len(),
{
    if o1.len() == 0 {
        if o2.len() > 0 {
            assert(o2.contains(o2[0]));
        }
        assert(o1 =~= o2);
    } else {
        assert(o1.contains(o1[0]));
        assert(o2.len() > 0);
        assert(o2.contains(o2[0]));
        let a = o1[0];
        let b = o2[0];
        let k = choose|k: int| 0 <= k < o2.len() && o2[k] == a;
        let j = choose|j: int| 0 <= j < o1.len() && o1[j] == b;
        if a != b {
            assert(k > 0 && j > 0);
            assert(draw_before(s, o2[0] as int, o2[k] as int));
            assert(draw_before(s, o1[0] as int, o1[j] as int));
        }
        let t1 = o1.skip(1);
        let t2 = o2.skip(1);
        assert(draw_sorted(s, t1)) by {
            assert forall|x: int, y: int| 0 <= x < y < t1.len() implies draw_before(s, t1[x] as int, t1[y] as int) by {
                assert(t1[x] == o1[x + 1] && t1[y] == o1[y + 1]);
            }
        }
        assert(draw_sorted(s, t2)) by {
            assert forall|x: int, y: int| 0 <= x < y < t2.len() implies draw_before(s, t2[x] as int, t2[y] as int) by {
                assert(t2[x] == o2[x + 1] && t2[y] == o2[y + 1]);
            }
        }
        assert forall|x: usize| t1.contains(x) <==> t2.contains(x) by {
            if t1.contains(x) {
                let p = choose|p: int| 0 <= p < t1.len() && t1[p] == x;
                assert(o1[p + 1] == x);
                assert(o1.contains(x));
                let q = choose|q: int| 0 <= q < o2.len() && o2[q] == x;
                if q == 0 {
                    assert(draw_before(s, o1[0] as int, o1[p + 1] as int));
                }
                assert(t2[q - 1] == x);
            }
            if t2.contains(x) {
                let p = choose|p: int| 0 <= p < t2.len() && t2[p] == x;
                assert(o2[p + 1] == x);
                assert(o2.contains(x));
                let q = choose|q: int| 0 <= q < o1.len() && o1[q] == x;
                if q == 0 {
                    assert(draw_before(s, o2[0] as int, o2[p + 1] as int));
                }
                assert(t1[q - 1] == x);
            }
        }
        lemma_draw_sorted_unique(s, t1, t2);
        assert(o1 =~= seq![a] + t1);
        assert(o2 =~= seq![b] + t2);
    }
}

/// A model has one drawing order: two orders that both meet `is_draw_order`
/// are equal.
pub proof fn lemma_draw_order_unique(s: Seq<ModelView>, o1: Seq<usize>, o2: Seq<usize>)
    requires
        is_draw_order(s, o1),
        is_draw_order(s, o2),
    ensures
        o1 == o2,
{
    assert forall|x: usize| o1.contains(x) <==> o2.contains(x) by {
        if o1.contains(x) {
            let k = choose|k: int| 0 <= k < o1.len() && o1[k] == x;
            assert(s[o1[k] as int].visible);
            assert(s[x as int].visible);
        }
        if o2.contains(x) {
            let k = choose|k: int| 0 <= k < o2.len() && o2[k] == x;
            assert(s[o2[k] as int].visible);
            assert(s[x as int].visible);
        }
    }
    lemma_draw_sorted_unique(s, o1, o2);
}

/// The vertices of a prefix of an order are no more than those of the whole.
pub proof fn lemma_stream_prefix(s: Seq<ModelView>, ord: Seq<usize>, k: int)
    requires
        0 <= k <= ord.len(),
    ensures
        stream(s, ord.take(k)).len() <= stream(s, ord).len(),
    decreases ord.len() - k,
{
    if k < ord.len() {
        lemma_stream_prefix(s, ord, k + 1);
        assert(ord.take(k + 1).drop_last() =~= ord.take(k));
    } else {
        assert(ord.take(k) =~= ord);
    }
}

/// Every model that collection keeps is a model of `s` that some handle
/// refers to.
pub proof fn lemma_live_models_from(s: Seq<ModelView>, k: int)
    requires
        0 <= k < live_models(s).len(),
    ensures
        exists|j: int| 0 <= j < s.len() && (#[trigger] s[j]) == live_models(s)[k] && s[j].refs > 0,
    decreases s.len(),
{
    let d = s.drop_last();
    if s.last().refs > 0 && k == live_models(d).len() {
        assert(s[s.len() - 1] == live_models(s)[k]);
    } else {
        lemma_live_models_from(d, k);
        let j = choose|j: int| 0 <= j < d.len() && (#[trigger] d[j]) == live_models(d)[k] && d[j].refs > 0;
        assert(s[j] == d[j]);
    }
}

/// Every model of `s` that some handle refers to survives collection.
pub proof fn lemma_live_models_keep(s: Seq<ModelView>, j: int)
    requires
        0 <= j < s.len(),
        s[j].refs > 0,
    ensures
        live_models(s).contains(s[j]),
    decreases s.len(),
{
    let d = s.drop_last();
    let l = live_models(s);
    if j == s.len() - 1 {
        assert(l[l.len() - 1] == s[j]);
    } else {
        lemma_live_models_keep(d, j);
        assert(d[j] == s[j]);
        let k = choose|k: int| 0 <= k < live_models(d).len() && live_models(d)[k] == d[j];
        assert(l[k] == live_models(d)[k]);
    }
}

/// A model that no handle refers to makes no difference to collection.
pub proof fn lemma_live_models_skip(s: Seq<ModelView>, i: int)
    requires
        0 <= i < s.len(),
        s[i].refs == 0,
    ensures
        live_models(s) == live_models(s.remove(i)),
    decreases s.len(),
{
    if i == s.len() - 1 {
        assert(s.remove(i) =~= s.drop_last());
    } else {
        lemma_live_models_skip(s.drop_last(), i);
        assert(s.remove(i).drop_last() =~= s.drop_last().remove(i));
        assert(s.remove(i).last() == s.last());
    }
}

/// Once every handle of model `id` has been given back, collection removes
/// that model and keeps every model that a handle still refers to (it acts
/// as if the model had never been there), and no drawing order of what is
/// left names it.
pub proof fn lemma_gc_removes_released(s: Seq<ModelView>, next: u64, id: u64, i: int)
    requires
        ids_ordered(s, next),
        model_at(s, id, i),
        s[i].refs == 0,
    ensures
        !has_model(live_models(s), id),
        live_models(s) == live_models(s.remove(i)),
        forall|j: int| 0 <= j < s.len() && (#[trigger] s[j]).refs > 0 ==> live_models(s).contains(s[j]),
        forall|ord: Seq<usize>, k: int| #[trigger] is_draw_order(live_models(s), ord) && 0 <= k < ord.len()
            ==> live_models(s)[#[trigger] ord[k] as int].id != id,
{
    let l = live_models(s);
    lemma_model_at_unique(s, next, id, i);
    if has_model(l, id) {
        let k = choose|k: int| model_at(l, id, k);
        lemma_live_models_from(s, k);
        let j = choose|j: int| 0 <= j < s.len() && (#[trigger] s[j]) == l[k] && s[j].refs > 0;
        assert(model_at(s, id, j));
    }
    lemma_live_models_skip(s, i);
    assert forall|j: int| 0 <= j < s.len() && (#[trigger] s[j]).refs > 0 implies l.contains(s[j]) by {
        lemma_live_models_keep(s, j);
    }
    assert forall|ord: Seq<usize>, k: int| #[trigger] is_draw_order(l, ord) && 0 <= k < ord.len()
        implies l[#[trigger] ord[k] as int].id != id by {
        if l[ord[k] as int].id == id {
            assert(model_at(l, id, ord[k] as int));
        }
    }
}

/// In a store whose ids are ordered, a model id sits at one position only.
pub proof fn lemma_model_at_unique(s: Seq<ModelView>, next: u64, id: u64, i: int)
    requires
        ids_ordered(s, next),
        model_at(s, id, i),
    ensures
        forall|j: int| model_at(s, id, j) ==> j == i,
{
    assert forall|j: int| model_at(s, id, j) implies j == i by {
        if j < i {
            assert(s[j].id < s[i].id);
        } else if i < j {
            assert(s[i].id < s[j].id);
        }
    }
}

/// Ids strictly increase along `s` and are all below `next`.
pub open spec fn ids_ordered(s: Seq<ModelView>, next: u64) -> bool {
    &&& forall|i: int| 0 <= i < s.len() ==> #[trigger] s[i].id < next
    &&& forall|i: int, j: int| 0 <= i < j < s.len() ==> #[trigger] s[i].id < #[trigger] s[j].id
}

} // verus!
