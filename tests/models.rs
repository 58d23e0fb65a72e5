use triangles::error::RenderError;
use triangles::model::{Model, TexFace, TexRef};
use triangles::modelman::Modelman;
use triangles::texman::Texman;

fn one_face(layer: i32) -> Model {
    Model {
        vs: vec![[1, 2, 3, 4], [5, 6, 7, 8], [9, 10, 11, 12]],
        uvs: vec![[20, 21], [22, 23], [24, 25]],
        tex_faces: vec![TexFace { color: [7, 7, 7, 7], vid: [2, 1, 0], uvid: [0, 1, 2], layer }],
    }
}

fn marked(tag: u32) -> Model {
    Model {
        vs: vec![[tag, 0, 0, 0]],
        uvs: vec![],
        tex_faces: vec![TexFace { color: [0; 4], vid: [0, 0, 0], uvid: [0, 0, 0], layer: -1 }],
    }
}

#[test]
fn empty_model_is_rejected() {
    let tex: Texman<u8> = Texman::new();
    let mut m = Modelman::new();
    let empty = Model { vs: vec![], uvs: vec![], tex_faces: vec![] };
    assert_eq!(m.insert(0, &empty, &tex).err(), Some(RenderError::EmptyGeometry));
    assert_eq!(m.len(), 0);
}

#[test]
fn unknown_texture_is_rejected() {
    let tex: Texman<u8> = Texman::new();
    let mut m = Modelman::new();
    assert_eq!(m.insert(0, &one_face(4), &tex).err(), Some(RenderError::UnknownHandle));
    assert_eq!(m.len(), 0);
}

#[test]
fn insert_emits_three_vertices_per_face() {
    let mut tex: Texman<u8> = Texman::new();
    tex.upload(0, 4);
    tex.upload(0, 6);
    let mut m = Modelman::new();
    let _h = m.insert(0, &one_face(6), &tex).unwrap();
    let vs = m.compile_draw_list().unwrap();
    assert_eq!(vs.len(), 3);
    assert_eq!(vs[0].pos, [9, 10, 11, 12]);
    assert_eq!(vs[1].pos, [5, 6, 7, 8]);
    assert_eq!(vs[2].pos, [1, 2, 3, 4]);
    assert_eq!(vs[0].tex_coord, [20, 21]);
    assert_eq!(vs[2].tex_coord, [24, 25]);
    assert_eq!(vs[1].color, [7, 7, 7, 7]);
    assert_eq!(vs[0].tex_layer, TexRef::Slot(1));
}

#[test]
fn untextured_face_gets_zero_uv_and_sentinel() {
    let tex: Texman<u8> = Texman::new();
    let mut m = Modelman::new();
    let _h = m.insert(0, &one_face(-1), &tex).unwrap();
    let vs = m.compile_draw_list().unwrap();
    assert_eq!(vs[1].tex_coord, [0, 0]);
    assert_eq!(vs[1].tex_layer, TexRef::Untextured);
}

#[test]
fn draw_order_is_stable_by_depth() {
    let tex: Texman<u8> = Texman::new();
    let mut m = Modelman::new();
    let mut handles = Vec::new();
    for (i, z) in [3, 1, 1, 2].iter().enumerate() {
        handles.push(m.insert(*z, &marked(i as u32), &tex).unwrap());
    }
    assert_eq!(m.draw_order(), vec![1, 2, 3, 0]);
    let vs = m.compile_draw_list().unwrap();
    let tags: Vec<u32> = vs.iter().map(|v| v.pos[0]).collect();
    assert_eq!(tags, vec![1, 1, 1, 2, 2, 2, 3, 3, 3, 0, 0, 0]);
}

#[test]
fn hidden_models_are_not_drawn() {
    let tex: Texman<u8> = Texman::new();
    let mut m = Modelman::new();
    let a = m.insert(0, &marked(1), &tex).unwrap();
    let _b = m.insert(0, &marked(2), &tex).unwrap();
    m.set_visibility(&a, false).unwrap();
    assert_eq!(m.draw_order(), vec![1]);
    m.set_visibility(&a, true).unwrap();
    m.set_z(&a, 5).unwrap();
    assert_eq!(m.draw_order(), vec![1, 0]);
}

#[test]
fn releasing_every_clone_collects_only_that_model() {
    let tex: Texman<u8> = Texman::new();
    let mut m = Modelman::new();
    let a = m.insert(0, &marked(1), &tex).unwrap();
    let b = m.insert(0, &marked(2), &tex).unwrap();
    let a2 = m.clone_handle(&a).unwrap();
    let a_id = a.id();
    m.release(a);
    m.gc();
    assert_eq!(m.len(), 2);
    m.release(a2);
    let vs = m.write_buffer().unwrap();
    assert_eq!(m.len(), 1);
    let tags: Vec<u32> = vs.iter().map(|v| v.pos[0]).collect();
    assert_eq!(tags, vec![2, 2, 2]);
    assert!(!m.remove(a_id));
    assert_eq!(m.set_z(&b, 1), Ok(()));
}

#[test]
fn mutation_after_collection_is_stale() {
    let tex: Texman<u8> = Texman::new();
    let mut m = Modelman::new();
    let a = m.insert(0, &marked(1), &tex).unwrap();
    let a2 = m.clone_handle(&a).unwrap();
    m.release(a);
    assert!(m.remove(a2.id()));
    assert_eq!(m.set_z(&a2, 3), Err(RenderError::StaleHandle));
    assert_eq!(m.set_visibility(&a2, false), Err(RenderError::StaleHandle));
    assert_eq!(m.clone_handle(&a2).err(), Some(RenderError::StaleHandle));
}

#[test]
fn remap_replaces_dropped_slots_with_sentinel() {
    let mut tex: Texman<u8> = Texman::new();
    tex.upload(0, 1);
    tex.upload(0, 2);
    let mut m = Modelman::new();
    let _a = m.insert(0, &one_face(1), &tex).unwrap();
    let _b = m.insert(1, &one_face(2), &tex).unwrap();
    tex.remove(1).unwrap();
    let remap = tex.compact();
    m.map_tex(&remap);
    let vs = m.compile_draw_list().unwrap();
    assert_eq!(vs[0].tex_layer, TexRef::Untextured);
    assert_eq!(vs[3].tex_layer, TexRef::Slot(0));
}

#[test]
fn well_indexed_check() {
    assert!(one_face(0).is_well_indexed());
    let mut bad = one_face(0);
    bad.tex_faces[0].uvid = [0, 0, 3];
    assert!(!bad.is_well_indexed());
    bad.tex_faces[0].layer = -1;
    assert!(bad.is_well_indexed());
    bad.tex_faces[0].vid = [0, 3, 0];
    assert!(!bad.is_well_indexed());
}
