//! The handoff between a background scene loader and the frame loop.
//!
//! A worker builds a complete, self-contained scene and publishes it
//! through a single shared slot; the frame loop polls the slot without
//! blocking and takes the scene in one move. The slot's invariant is that
//! its data field is either wholly absent or a complete, internally
//! consistent game scene — no partially constructed state is ever stored.

use vstd::prelude::*;
use crate::error::EngineError;
use crate::pool::Handle;
use crate::scene::Scene;

verus! {

/// A fully loaded scene together with the handles gameplay needs: the
/// model's root node and its walk animation.
pub struct GameScene {
    pub scene: Scene,
    pub model: Handle,
    pub walk_animation: Handle,
}

impl GameScene {
    /// Complete and internally consistent: the scene is well-formed and
    /// both handles are live inside it.
    pub open spec fn wf(self) -> bool {
        &&& self.scene.wf()
        &&& self.scene.graph.valid(self.model)
        &&& self.scene.animations.pool.spec_valid(self.walk_animation)
    }
}

/// The shared slot a loader fills while the frame loop polls: the scene
/// once it is done, a human-readable status line, and a progress fraction
/// in thousandths.
pub struct SceneLoadContext {
    pub data: Option<GameScene>,
    pub message: String,
    pub progress_permille: u32,
}

impl SceneLoadContext {
    /// The slot invariant: progress stays a fraction, and the data field
    /// is either absent or a complete game scene.
    pub open spec fn wf(self) -> bool {
        &&& self.progress_permille <= 1000
        &&& match self.data {
            Some(gs) => gs.wf(),
            None => true,
        }
    }

    /// An empty slot at zero progress.
    pub fn new() -> (r: SceneLoadContext)
        ensures
            r.wf(),
            r.data is None,
            r.progress_permille == 0,
            r.message@.len() == 0,
    {
        SceneLoadContext { data: None, message: String::new(), progress_permille: 0 }
    }

    /// Records how far the load has come, without touching the data slot.
    pub fn report_progress(&mut self, progress_permille: u32, message: String)
        requires
            old(self).wf(),
            progress_permille <= 1000,
        ensures
            final(self).wf(),
            final(self).data == old(self).data,
            final(self).progress_permille == progress_permille,
            final(self).message == message,
    {
        self.progress_permille = progress_permille;
        self.message = message;
    }

    /// Publishes a finished scene: only a complete game scene can ever be
    /// stored, so a reader never observes partial state.
    pub fn complete(&mut self, game_scene: GameScene)
        requires
            old(self).wf(),
            game_scene.wf(),
        ensures
            final(self).wf(),
            final(self).data == Some(game_scene),
            final(self).progress_permille == 1000,
            final(self).message == old(self).message,
    {
        self.progress_permille = 1000;
        self.data = Some(game_scene);
    }

    /// Takes the finished scene out of the slot, if one is there: the
    /// single atomic ownership transfer to the frame loop. What comes out
    /// is always complete.
    pub fn take(&mut self) -> (r: Option<GameScene>)
        requires
            old(self).wf(),
        ensures
            final(self).wf(),
            r == old(self).data,
            final(self).data is None,
            final(self).message == old(self).message,
            final(self).progress_permille == old(self).progress_permille,
            r is Some ==> (r->0).wf(),
    {
        self.data.take()
    }
}

/// Seals a built scene into a [`GameScene`], checking that both handles
/// are live in it; a loader that lost its handles surfaces
/// `ResourceLoadFailure` instead of publishing a broken scene.
pub fn finish_load(scene: Scene, model: Handle, walk_animation: Handle) -> (r: Result<
    GameScene,
    EngineError,
>)
    requires
        scene.wf(),
    ensures
        (r is Ok) == (scene.graph.valid(model) && scene.animations.pool.spec_valid(
            walk_animation,
        )),
        r is Ok ==> (r->Ok_0).wf() && (r->Ok_0).scene == scene && (r->Ok_0).model == model && (
        r->Ok_0).walk_animation == walk_animation,
        r is Err ==> r == Err::<GameScene, EngineError>(EngineError::ResourceLoadFailure),
{
    if scene.graph.is_valid(model) && scene.animations.pool.is_valid(walk_animation) {
        Ok(GameScene { scene, model, walk_animation })
    } else {
        Err(EngineError::ResourceLoadFailure)
    }
}

} // verus!
