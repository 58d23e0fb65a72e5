use triangles::model::{Model, TexFace, TexRef};
use triangles::present::{AcquireOutcome, FrameAction, FrameEvent, FrameLoop, Phase, RecreateOutcome, SubmitOutcome};
use triangles::scene::{build_commands, Command, Scene};

fn textured_triangle(layer: i32) -> Model {
    Model {
        vs: vec![[0, 0, 0, 0], [1, 0, 0, 0], [2, 0, 0, 0]],
        uvs: vec![[0, 0]],
        tex_faces: vec![TexFace { color: [0; 4], vid: [0, 1, 2], uvid: [0, 0, 0], layer }],
    }
}

#[test]
fn textured_model_survives_texture_removal() {
    let mut scene: Scene<&str> = Scene::new();
    scene.upload_tex("A", 0);
    let _m = scene.insert_model(0, &textured_triangle(0)).unwrap();
    let frame = scene.compile_frame().unwrap();
    assert_eq!(frame.rebuilt, Some(1));
    assert_eq!(frame.vertices.len(), 3);
    assert!(frame.vertices.iter().all(|v| v.tex_layer == TexRef::Slot(0)));
    let draws: Vec<&Command> = frame.commands.iter().filter(|c| matches!(c, Command::Draw { .. })).collect();
    assert_eq!(draws, vec![&Command::Draw { vertex_count: 3 }]);

    scene.remove_tex(0).unwrap();
    let frame = scene.compile_frame().unwrap();
    assert_eq!(frame.rebuilt, Some(0));
    assert_eq!(frame.vertices.len(), 3);
    assert!(frame.vertices.iter().all(|v| v.tex_layer == TexRef::Untextured));
    assert!(frame.commands.contains(&Command::Draw { vertex_count: 3 }));
}

#[test]
fn empty_scene_renders_clear_only() {
    let mut scene: Scene<u8> = Scene::new();
    let frame = scene.compile_frame().unwrap();
    assert_eq!(frame.rebuilt, None);
    assert!(frame.vertices.is_empty());
    assert_eq!(frame.commands, vec![Command::BeginRenderPass, Command::EndRenderPass]);
}

#[test]
fn frame_commands_shapes() {
    assert_eq!(
        build_commands(6, 2),
        vec![
            Command::BeginRenderPass,
            Command::BindCamera,
            Command::BindTextureArray { layers: 2 },
            Command::BindVertexBuffer,
            Command::Draw { vertex_count: 6 },
            Command::EndRenderPass,
        ]
    );
    assert_eq!(
        build_commands(3, 0),
        vec![
            Command::BeginRenderPass,
            Command::BindCamera,
            Command::BindVertexBuffer,
            Command::Draw { vertex_count: 3 },
            Command::EndRenderPass,
        ]
    );
}

#[test]
fn rebuild_twice_rebuilds_once() {
    let mut scene: Scene<u8> = Scene::new();
    scene.upload_tex(1, 4);
    scene.upload_tex(2, 5);
    scene.remove_tex(4).unwrap();
    assert_eq!(scene.rebuild_if_dirty(), Some(1));
    assert_eq!(scene.rebuild_if_dirty(), None);
    assert_eq!(scene.texman().payloads(), &vec![2]);
}

#[test]
fn released_model_leaves_the_frame() {
    let mut scene: Scene<u8> = Scene::new();
    let a = scene.insert_model(0, &textured_triangle(-1)).unwrap();
    let b = scene.insert_model(1, &textured_triangle(-1)).unwrap();
    let b2 = scene.clone_model(&b).unwrap();
    scene.release_model(b);
    assert_eq!(scene.compile_frame().unwrap().vertices.len(), 6);
    scene.release_model(b2);
    assert_eq!(scene.compile_frame().unwrap().vertices.len(), 3);
    scene.set_z(&a, 4).unwrap();
    scene.set_visibility(&a, false).unwrap();
    let frame = scene.compile_frame().unwrap();
    assert_eq!(frame.commands, vec![Command::BeginRenderPass, Command::EndRenderPass]);
    assert_eq!(scene.modelman().len(), 1);
    assert!(scene.remove(a.id()));
    assert_eq!(scene.modelman().len(), 0);
}

#[test]
fn stale_acquisition_aborts_then_recreates() {
    let mut lp = FrameLoop::new(800, 600);
    assert_eq!(lp.step(FrameEvent::Begin), FrameAction::Acquire);
    assert_eq!(lp.step(FrameEvent::Acquired(AcquireOutcome::OutOfDate)), FrameAction::Abort);
    assert!(lp.stale);
    assert_eq!(lp.phase, Phase::Idle);
    assert_eq!(lp.step(FrameEvent::Begin), FrameAction::RecreateSwapchain);
    assert_eq!(
        lp.step(FrameEvent::Recreated(RecreateOutcome::Created { width: 1024, height: 768 })),
        FrameAction::Acquire
    );
    assert!(!lp.stale);
    assert_eq!((lp.width, lp.height), (1024, 768));
    assert_eq!(lp.step(FrameEvent::Acquired(AcquireOutcome::Acquired { image: 2 })), FrameAction::Render { image: 2 });
    assert_eq!(lp.step(FrameEvent::Submitted(SubmitOutcome::Submitted)), FrameAction::KeepToken);
    assert_eq!(lp.phase, Phase::Presented);
}

#[test]
fn unsupported_extent_retries_next_frame() {
    let mut lp = FrameLoop::new(800, 600);
    lp.mark_dirty();
    assert_eq!(lp.step(FrameEvent::Begin), FrameAction::RecreateSwapchain);
    assert_eq!(lp.step(FrameEvent::Recreated(RecreateOutcome::UnsupportedExtent)), FrameAction::Abort);
    assert!(lp.stale);
    assert_eq!(lp.step(FrameEvent::Begin), FrameAction::RecreateSwapchain);
    assert_eq!(lp.step(FrameEvent::Recreated(RecreateOutcome::Failed)), FrameAction::Fatal);
}

#[test]
fn submission_failures_degrade_to_fresh_token() {
    let mut lp = FrameLoop::new(1, 1);
    lp.step(FrameEvent::Begin);
    lp.step(FrameEvent::Acquired(AcquireOutcome::Acquired { image: 0 }));
    assert_eq!(lp.step(FrameEvent::Submitted(SubmitOutcome::OutOfDate)), FrameAction::FreshToken);
    assert!(lp.stale);
    assert_eq!(lp.step(FrameEvent::Begin), FrameAction::RecreateSwapchain);
    lp.step(FrameEvent::Recreated(RecreateOutcome::Created { width: 1, height: 1 }));
    lp.step(FrameEvent::Acquired(AcquireOutcome::Acquired { image: 1 }));
    assert_eq!(lp.step(FrameEvent::Submitted(SubmitOutcome::Failed)), FrameAction::FreshToken);
    assert!(!lp.stale);
    assert_eq!(lp.step(FrameEvent::Acquired(AcquireOutcome::Failed)), FrameAction::Ignore);
    assert_eq!(lp.step(FrameEvent::Begin), FrameAction::Acquire);
    assert_eq!(lp.step(FrameEvent::Acquired(AcquireOutcome::Failed)), FrameAction::Fatal);
}

#[test]
fn depth_and_visibility_by_model_id() {
    let mut scene: Scene<u8> = Scene::new();
    let a = scene.insert_model(0, &textured_triangle(-1)).unwrap();
    let b = scene.insert_model(1, &textured_triangle(-1)).unwrap();
    assert_eq!(scene.modelman().draw_order(), vec![0, 1]);
    assert_eq!(scene.set_z_by_id(a.id(), 2), Ok(()));
    assert_eq!(scene.modelman().draw_order(), vec![1, 0]);
    assert_eq!(scene.set_visibility_by_id(b.id(), false), Ok(()));
    assert_eq!(scene.modelman().draw_order(), vec![0]);
    assert_eq!(scene.set_z_by_id(99, 0), Err(triangles::error::RenderError::StaleHandle));
    assert_eq!(scene.set_visibility_by_id(99, true), Err(triangles::error::RenderError::StaleHandle));
}
