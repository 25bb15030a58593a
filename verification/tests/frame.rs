use engine_core::animation::{Animation, Track};
use engine_core::error::EngineError;
use engine_core::graph::{CameraData, Graph, Node, NodeKind};
use engine_core::loader::{finish_load, SceneLoadContext};
use engine_core::math::{Color, Matrix4, Transform, Vector3};
use engine_core::renderer::{DebugRenderer, Line};
use engine_core::scene::{Scene, SceneContainer};

fn pose_track(name: &str, times_and_x: &[(u32, i64)]) -> Track {
    let mut track = Track::new(String::from(name));
    for &(time, x) in times_and_x {
        let mut value = Transform::identity();
        value.position = Vector3::new(x, 0, 0);
        track.add_keyframe(time, value);
    }
    track
}

#[test]
fn evaluation_clamps_at_both_ends() {
    let track = pose_track("bone", &[(1000, 100), (3000, 300)]);
    // at t = 0 the first keyframe's value holds
    assert_eq!(track.sample_at(0).unwrap().position.x, 100);
    // at the duration (and past it) the last keyframe's value holds
    assert_eq!(track.duration(), 3000);
    assert_eq!(track.sample_at(3000).unwrap().position.x, 300);
    assert_eq!(track.sample_at(9000).unwrap().position.x, 300);
    // in between it interpolates linearly
    assert_eq!(track.sample_at(2000).unwrap().position.x, 200);
    assert_eq!(track.sample_at(1000).unwrap().position.x, 100);
}

#[test]
fn empty_track_yields_nothing() {
    let track = Track::new(String::from("bone"));
    assert!(track.sample_at(0).is_none());
}

#[test]
fn looping_update_wraps_the_cursor() {
    let mut animation = Animation::new();
    animation.add_track(pose_track("bone", &[(0, 0), (5000, 500)]));
    animation.looped = true;
    // advancing one full duration plus 100ms lands on 100ms
    let _ = animation.update(5100);
    assert_eq!(animation.time_position, 100);
    // a non-looping animation clamps at the end instead
    let mut clamped = Animation::new();
    clamped.add_track(pose_track("bone", &[(0, 0), (5000, 500)]));
    let _ = clamped.update(6000);
    assert_eq!(clamped.time_position, 5000);
}

#[test]
fn signal_crossing_fires_exactly_once() {
    let mut animation = Animation::new();
    animation.add_track(pose_track("bone", &[(0, 0), (5000, 500)]));
    animation.looped = true;
    animation.add_signal(1, 2000, String::from("step"));
    let none = animation.update(1900);
    assert_eq!(none.len(), 0);
    assert_eq!(animation.time_position, 1900);
    // 1.9s -> 2.1s crosses the 2.0s marker once
    let events = animation.update(200);
    assert_eq!(events, vec![1]);
    // and not again on the next tick
    let after = animation.update(200);
    assert_eq!(after.len(), 0);
}

#[test]
fn loop_wrap_fires_end_markers_and_resets_cursor() {
    let mut animation = Animation::new();
    animation.add_track(pose_track("bone", &[(0, 0), (5000, 500)]));
    animation.looped = true;
    animation.add_signal(7, 5000, String::from("end"));
    animation.add_signal(8, 0, String::from("start"));
    let _ = animation.update(4900);
    assert_eq!(animation.time_position, 4900);
    // 4.9s -> 5.1s wraps: both the end-of-track marker and the one at the
    // loop start fire, and the cursor resets to 0.1s
    let events = animation.update(200);
    assert_eq!(events, vec![7, 8]);
    assert_eq!(animation.time_position, 100);
}

#[test]
fn disabled_animation_stands_still() {
    let mut animation = Animation::new();
    animation.add_track(pose_track("bone", &[(0, 0), (5000, 500)]));
    animation.enabled = false;
    animation.add_signal(1, 100, String::from("step"));
    let events = animation.update(1000);
    assert_eq!(events.len(), 0);
    assert_eq!(animation.time_position, 0);
}

#[test]
fn signal_times_are_editable_and_undoable() {
    let mut animation = Animation::new();
    animation.add_track(pose_track("bone", &[(0, 0), (5000, 500)]));
    animation.add_signal(42, 1500, String::from("step"));
    assert_eq!(animation.signal_time(42), Some(1500));
    // the edit hands back the old value so a command can undo it
    assert_eq!(animation.set_signal_time(42, 2500), Some(1500));
    assert_eq!(animation.signal_time(42), Some(2500));
    assert_eq!(animation.set_signal_time(99, 1), None);
}

#[test]
fn retarget_keeps_exactly_the_matched_bones() {
    let mut graph = Graph::new();
    let model = graph.add_node(Node::new(String::from("model"), NodeKind::Base), None);
    let _hip = graph.add_node(Node::new(String::from("hip"), NodeKind::Bone), Some(model));
    let _knee = graph.add_node(Node::new(String::from("knee"), NodeKind::Bone), Some(model));
    // a bone of the right name outside the model subtree must not match
    let _stray = graph.add_node(Node::new(String::from("ankle"), NodeKind::Bone), None);

    let mut source = Animation::new();
    source.add_track(pose_track("hip", &[(0, 0), (1000, 100)]));
    source.add_track(pose_track("ankle", &[(0, 0), (1000, 100)]));
    source.add_track(pose_track("knee", &[(0, 0), (1000, 100)]));

    let retargeted = source.retarget(&graph, model);
    // only the two bones under the model matched
    assert_eq!(retargeted.tracks.len(), 2);
    assert_eq!(retargeted.tracks[0].target_name, "hip");
    assert_eq!(retargeted.tracks[1].target_name, "knee");
    for track in &retargeted.tracks {
        let node = track.node.expect("every kept track is bound");
        assert!(graph.is_valid(node));
    }
}

#[test]
fn applying_a_pose_skips_stale_nodes() {
    let mut graph = Graph::new();
    let model = graph.add_node(Node::new(String::from("model"), NodeKind::Base), None);
    let hip = graph.add_node(Node::new(String::from("hip"), NodeKind::Bone), Some(model));
    let knee = graph.add_node(Node::new(String::from("knee"), NodeKind::Bone), Some(model));

    let mut source = Animation::new();
    source.add_track(pose_track("hip", &[(0, 10), (1000, 100)]));
    source.add_track(pose_track("knee", &[(0, 20), (1000, 200)]));
    let retargeted = source.retarget(&graph, model);

    // remove one targeted bone after retargeting, then apply
    graph.remove_node(knee).unwrap();
    let pose = retargeted.get_pose();
    pose.apply(&mut graph);
    assert_eq!(graph.get(hip).unwrap().base.local_transform.position.x, 10);
    assert!(graph.get(knee).is_none());
}

fn camera_scene() -> Scene {
    let mut scene = Scene::new();
    let camera = Node::new(
        String::from("camera"),
        NodeKind::Camera(CameraData { view_projection: Matrix4::identity() }),
    );
    scene.graph.add_node(camera, None);
    scene
}

#[test]
fn one_draw_call_per_camera_scene() {
    let mut renderer = DebugRenderer::new().unwrap();
    for i in 0..10i64 {
        renderer.add_line(Line {
            begin: Vector3::new(i, 0, 0),
            end: Vector3::new(i, 1000, 0),
            color: Color::opaque(255, 0, 0),
        });
    }
    let mut scenes = SceneContainer::new();
    scenes.add(camera_scene());
    scenes.add(camera_scene());
    scenes.add(Scene::new());  // no camera: skipped, not an error
    scenes.add(camera_scene());
    let statistics = renderer.render(&scenes);
    // three scenes have cameras: exactly three draw calls, despite 10 lines
    assert_eq!(statistics.draw_calls, 3);
    assert_eq!(statistics.triangle_count, 0);
    // every line became two vertices and one index pair
    assert_eq!(renderer.vertices.len(), 20);
    assert_eq!(renderer.line_indices.len(), 10);
    assert_eq!(renderer.line_indices[4], [8, 9]);
    assert_eq!(renderer.geometry.vertices.len(), 20);
}

#[test]
fn renderer_without_cameras_draws_nothing() {
    let mut renderer = DebugRenderer::new().unwrap();
    renderer.add_line(Line {
        begin: Vector3::new(0, 0, 0),
        end: Vector3::new(1, 1, 1),
        color: Color::opaque(0, 255, 0),
    });
    let mut scenes = SceneContainer::new();
    scenes.add(Scene::new());
    let statistics = renderer.render(&scenes);
    assert_eq!(statistics.draw_calls, 0);
    renderer.clear_lines();
    assert_eq!(renderer.lines.len(), 0);
}

#[test]
fn statistics_accumulate_across_passes() {
    let mut total = engine_core::renderer::RenderPassStatistics::default();
    let pass = engine_core::renderer::RenderPassStatistics { draw_calls: 3, triangle_count: 12 };
    total.accumulate(&pass);
    total.accumulate(&pass);
    assert_eq!(total.draw_calls, 6);
    assert_eq!(total.triangle_count, 24);
}

#[test]
fn load_context_hands_over_a_complete_scene() {
    let mut context = SceneLoadContext::new();
    assert!(context.take().is_none());
    context.report_progress(330, String::from("loading model"));
    assert_eq!(context.progress_permille, 330);
    assert_eq!(context.message, "loading model");

    // build a complete scene on the "worker" side
    let mut scene = Scene::new();
    let model = scene.graph.add_node(Node::new(String::from("model"), NodeKind::Base), None);
    let _bone = scene.graph.add_node(Node::new(String::from("hip"), NodeKind::Bone), Some(model));
    let mut animation = Animation::new();
    animation.add_track(pose_track("hip", &[(0, 0), (1000, 100)]));
    let animation = animation.retarget(&scene.graph, model);
    let walk = scene.animations.add(animation);
    let game_scene = finish_load(scene, model, walk).unwrap();

    context.complete(game_scene);
    assert_eq!(context.progress_permille, 1000);
    let taken = context.take().expect("a finished load is waiting");
    assert!(taken.scene.graph.is_valid(taken.model));
    // the slot is empty again after the single ownership transfer
    assert!(context.take().is_none());
}

#[test]
fn finish_load_rejects_dead_handles() {
    let mut scene = Scene::new();
    let model = scene.graph.add_node(Node::new(String::from("model"), NodeKind::Base), None);
    let mut other = Scene::new();
    let foreign = other.graph.add_node(Node::new(String::from("x"), NodeKind::Base), None);
    let mut animation = Animation::new();
    animation.add_track(pose_track("hip", &[(0, 0), (1000, 100)]));
    let walk = scene.animations.add(animation);
    scene.graph.remove_node(model).unwrap();
    let result = finish_load(scene, model, walk);
    assert_eq!(result.err(), Some(EngineError::ResourceLoadFailure));
    let _ = foreign;
}
