//! Scenes: a graph of nodes plus the animations that drive it, and the
//! container the engine iterates each frame.

use vstd::prelude::*;
use crate::animation::Animation;
use crate::graph::Graph;
use crate::pool::{Handle, Pool};

verus! {

/// The animations of one scene, in their own handle pool.
pub struct AnimationContainer {
    pub pool: Pool<Animation>,
}

impl AnimationContainer {
    /// Every stored animation is internally consistent.
    pub open spec fn wf(self) -> bool {
        self.pool.wf() && forall|h: Handle| #[trigger] self.pool.spec_valid(h) ==> self.pool.at(
            h,
        ).wf()
    }

    pub fn new() -> (r: AnimationContainer)
        ensures
            r.wf(),
            r.pool.count() == 0,
            r.pool.slot_count() == 0,
    {
        AnimationContainer { pool: Pool::new() }
    }

    /// Stores an animation and returns its handle.
    pub fn add(&mut self, animation: Animation) -> (h: Handle)
        requires
            old(self).wf(),
            animation.wf(),
            old(self).pool.slot_count() < usize::MAX,
        ensures
            final(self).wf(),
            final(self).pool.spec_valid(h),
            final(self).pool.at(h) == animation,
            final(self).pool.count() == old(self).pool.count() + 1,
            forall|h2: Handle|
                old(self).pool.spec_valid(h2) ==> final(self).pool.spec_valid(h2) && final(self).pool.at(h2) == old(self).pool.at(h2),
    {
        let h = self.pool.add(animation);
        h
    }

    /// Borrows an animation, or nothing for a stale handle.
    pub fn get(&self, h: Handle) -> (r: Option<&Animation>)
        ensures
            (r is Some) == self.pool.spec_valid(h),
            self.pool.spec_valid(h) ==> r == Some(&self.pool.at(h)),
    {
        self.pool.get(h)
    }

    /// Replaces the animation behind a live handle, reporting whether the
    /// handle was live.
    pub fn replace(&mut self, h: Handle, animation: Animation) -> (r: bool)
        requires
            old(self).wf(),
            animation.wf(),
        ensures
            final(self).wf(),
            r == old(self).pool.spec_valid(h),
            !old(self).pool.spec_valid(h) ==> *final(self) == *old(self),
            old(self).pool.spec_valid(h) ==> final(self).pool.spec_valid(h) && final(self).pool.at(h) == animation && (forall|h2: Handle|
                h2.index != h.index && old(self).pool.spec_valid(h2) ==> final(self).pool.at(h2)
                    == old(self).pool.at(h2)) && (forall|h2: Handle|
                final(self).pool.spec_valid(h2) == old(self).pool.spec_valid(h2)),
    {
        self.pool.set(h, animation)
    }
}

/// One scene: its node graph and its animations.
pub struct Scene {
    pub graph: Graph,
    pub animations: AnimationContainer,
}

impl Scene {
    pub open spec fn wf(self) -> bool {
        self.graph.wf() && self.animations.wf()
    }

    /// An empty scene.
    pub fn new() -> (r: Scene)
        ensures
            r.wf(),
            r.graph.pool.count() == 0,
            r.animations.pool.count() == 0,
    {
        Scene { graph: Graph::new(), animations: AnimationContainer::new() }
    }
}

/// Every scene the engine owns, iterated by the renderer each frame.
pub struct SceneContainer {
    pub pool: Pool<Scene>,
}

impl SceneContainer {
    pub open spec fn wf(self) -> bool {
        self.pool.wf() && forall|h: Handle| #[trigger] self.pool.spec_valid(h) ==> self.pool.at(
            h,
        ).wf()
    }

    pub fn new() -> (r: SceneContainer)
        ensures
            r.wf(),
            r.pool.count() == 0,
            r.pool.slot_count() == 0,
    {
        SceneContainer { pool: Pool::new() }
    }

    /// Takes ownership of a scene and returns its handle.
    pub fn add(&mut self, scene: Scene) -> (h: Handle)
        requires
            old(self).wf(),
            scene.wf(),
            old(self).pool.slot_count() < usize::MAX,
        ensures
            final(self).wf(),
            final(self).pool.spec_valid(h),
            final(self).pool.at(h) == scene,
            final(self).pool.count() == old(self).pool.count() + 1,
            forall|h2: Handle|
                old(self).pool.spec_valid(h2) ==> final(self).pool.spec_valid(h2) && final(self).pool.at(h2) == old(self).pool.at(h2),
    {
        self.pool.add(scene)
    }

    /// Borrows a scene, or nothing for a stale handle.
    pub fn get(&self, h: Handle) -> (r: Option<&Scene>)
        ensures
            (r is Some) == self.pool.spec_valid(h),
            self.pool.spec_valid(h) ==> r == Some(&self.pool.at(h)),
    {
        self.pool.get(h)
    }
}

} // verus!
