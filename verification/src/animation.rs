//! The animation engine: named keyframe tracks evaluated over time,
//! retargeting onto a node hierarchy, signal markers, and pose application.
//!
//! Times are in milliseconds; the speed multiplier is in thousandths. A
//! track's keyframes are strictly ordered by time. Evaluation clamps before
//! the first key and after the last and interpolates linearly in between;
//! signal crossings use the half-open interval (old, new] of unwrapped
//! time, so a marker at the loop point fires when the cursor passes the
//! end of the track.

use vstd::prelude::*;
use crate::graph::Graph;
use crate::math::{lerp_i64, lerp_spec, Transform, Vector3};
use crate::pool::Handle;

verus! {

/// One keyframe: a time and the transform the track holds at that time.
#[derive(Clone, Copy, PartialEq, Eq, Structural, Debug)]
pub struct Keyframe {
    pub time: u32,
    pub value: Transform,
}

/// One track: the name of the bone it animates, the node it is bound to
/// (after retargeting), and its keyframes.
pub struct Track {
    pub target_name: String,
    pub node: Option<Handle>,
    pub keyframes: Vec<Keyframe>,
}

/// Keyframe times strictly increase along a track.
pub open spec fn keys_sorted(keys: Seq<Keyframe>) -> bool {
    forall|i: int, j: int| 0 <= i < j < keys.len() ==> keys[i].time < keys[j].time
}

/// The identity transform, as a specification value.
pub open spec fn transform_identity() -> Transform {
    Transform {
        position: Vector3 { x: 0i64, y: 0i64, z: 0i64 },
        rotation: Vector3 { x: 0i64, y: 0i64, z: 0i64 },
        scale: Vector3 { x: 1000i64, y: 1000i64, z: 1000i64 },
    }
}

/// Component-wise linear interpolation of two transforms at `num / den`.
pub open spec fn lerp_transform_spec(a: Transform, b: Transform, num: int, den: int) -> Transform {
    Transform {
        position: Vector3 {
            x: lerp_spec(a.position.x as int, b.position.x as int, num, den) as i64,
            y: lerp_spec(a.position.y as int, b.position.y as int, num, den) as i64,
            z: lerp_spec(a.position.z as int, b.position.z as int, num, den) as i64,
        },
        rotation: Vector3 {
            x: lerp_spec(a.rotation.x as int, b.rotation.x as int, num, den) as i64,
            y: lerp_spec(a.rotation.y as int, b.rotation.y as int, num, den) as i64,
            z: lerp_spec(a.rotation.z as int, b.rotation.z as int, num, den) as i64,
        },
        scale: Vector3 {
            x: lerp_spec(a.scale.x as int, b.scale.x as int, num, den) as i64,
            y: lerp_spec(a.scale.y as int, b.scale.y as int, num, den) as i64,
            z: lerp_spec(a.scale.z as int, b.scale.z as int, num, den) as i64,
        },
    }
}

/// What evaluating a keyframe list at time `t` yields: the first value
/// before the first key, the last value after the last key, and linear
/// interpolation between the two bracketing keys otherwise.
pub open spec fn eval_keys(keys: Seq<Keyframe>, t: int) -> Transform
    decreases keys.len(),
{
    if keys.len() == 0 {
        transform_identity()
    } else if keys.len() == 1 {
        keys[0].value
    } else if t >= keys[1].time {
        eval_keys(keys.subrange(1, keys.len() as int), t)
    } else if t <= keys[0].time {
        keys[0].value
    } else {
        lerp_transform_spec(
            keys[0].value,
            keys[1].value,
            t - keys[0].time,
            keys[1].time - keys[0].time,
        )
    }
}

/// At the full fraction the interpolated transform is exactly the second
/// transform.
proof fn lemma_lerp_transform_at_end(a: Transform, b: Transform, den: int)
    requires
        0 < den,
    ensures
        lerp_transform_spec(a, b, den, den) == b,
{
    crate::math::lemma_lerp_spec_ends(a.position.x as int, b.position.x as int, den);
    crate::math::lemma_lerp_spec_ends(a.position.y as int, b.position.y as int, den);
    crate::math::lemma_lerp_spec_ends(a.position.z as int, b.position.z as int, den);
    crate::math::lemma_lerp_spec_ends(a.rotation.x as int, b.rotation.x as int, den);
    crate::math::lemma_lerp_spec_ends(a.rotation.y as int, b.rotation.y as int, den);
    crate::math::lemma_lerp_spec_ends(a.rotation.z as int, b.rotation.z as int, den);
    crate::math::lemma_lerp_spec_ends(a.scale.x as int, b.scale.x as int, den);
    crate::math::lemma_lerp_spec_ends(a.scale.y as int, b.scale.y as int, den);
    crate::math::lemma_lerp_spec_ends(a.scale.z as int, b.scale.z as int, den);
}

/// On a looping animation, advancing the cursor one full duration plus a
/// remainder lands it on the remainder, so evaluation at `duration + e`
/// agrees with evaluation at `e`.
pub proof fn lemma_loop_wrap(length: int, eps: int)
    requires
        0 < length,
        0 <= eps < length,
    ensures
        (length + eps) % length == eps,
{
    vstd::arithmetic::div_mod::lemma_mod_multiples_vanish(1, eps, length);
    assert(1 * length == length);
    vstd::arithmetic::div_mod::lemma_small_mod(eps as nat, length as nat);
}

/// At or before the first key the track clamps to the first value.
pub proof fn lemma_eval_at_start(keys: Seq<Keyframe>, t: int)
    requires
        keys_sorted(keys),
        keys.len() >= 1,
        t <= keys[0].time,
    ensures
        eval_keys(keys, t) == keys[0].value,
{
    if keys.len() >= 2 {
        assert(keys[0].time < keys[1].time);
    }
}

/// At or past the last key the track clamps to the last value.
pub proof fn lemma_eval_at_end(keys: Seq<Keyframe>, t: int)
    requires
        keys_sorted(keys),
        keys.len() >= 1,
        t >= keys[keys.len() - 1].time,
    ensures
        eval_keys(keys, t) == keys[keys.len() - 1].value,
    decreases keys.len(),
{
    if keys.len() >= 2 {
        let sub = keys.subrange(1, keys.len() as int);
        assert(keys[1].time <= keys[keys.len() - 1].time);
        assert(sub[sub.len() - 1] == keys[keys.len() - 1]);
        lemma_eval_at_end(sub, t);
    }
}

/// Inside a bracketing segment the track interpolates linearly; at the
/// right endpoint the interpolation is exact.
pub proof fn lemma_eval_segment(keys: Seq<Keyframe>, t: int, i: int)
    requires
        keys_sorted(keys),
        0 <= i < keys.len() - 1,
        keys[i].time < t,
        t <= keys[i + 1].time,
    ensures
        eval_keys(keys, t) == lerp_transform_spec(
            keys[i].value,
            keys[i + 1].value,
            t - keys[i].time,
            keys[i + 1].time - keys[i].time,
        ),
    decreases i,
{
    if i == 0 {
        if t >= keys[1].time {
            // exactly on the right endpoint
            assert(t == keys[1].time);
            let sub = keys.subrange(1, keys.len() as int);
            assert(sub[0] == keys[1]);
            lemma_eval_at_start(sub, t);
            let den = keys[1].time - keys[0].time;
            lemma_lerp_transform_at_end(keys[0].value, keys[1].value, den);
        }
    } else {
        assert(keys[1].time <= keys[i].time);
        let sub = keys.subrange(1, keys.len() as int);
        assert(sub[i - 1] == keys[i]);
        assert(sub[i] == keys[i + 1]);
        lemma_eval_segment(sub, t, i - 1);
    }
}

/// Interpolates two transforms at fraction `num / den`.
pub fn lerp_transform(a: &Transform, b: &Transform, num: u32, den: u32) -> (r: Transform)
    requires
        0 < den,
        num <= den,
    ensures
        r == lerp_transform_spec(*a, *b, num as int, den as int),
{
    Transform {
        position: Vector3 {
            x: lerp_i64(a.position.x, b.position.x, num, den),
            y: lerp_i64(a.position.y, b.position.y, num, den),
            z: lerp_i64(a.position.z, b.position.z, num, den),
        },
        rotation: Vector3 {
            x: lerp_i64(a.rotation.x, b.rotation.x, num, den),
            y: lerp_i64(a.rotation.y, b.rotation.y, num, den),
            z: lerp_i64(a.rotation.z, b.rotation.z, num, den),
        },
        scale: Vector3 {
            x: lerp_i64(a.scale.x, b.scale.x, num, den),
            y: lerp_i64(a.scale.y, b.scale.y, num, den),
            z: lerp_i64(a.scale.z, b.scale.z, num, den),
        },
    }
}

impl Track {
    /// A track for the named bone, not yet bound to a node.
    pub fn new(target_name: String) -> (r: Track)
        ensures
            r.target_name == target_name,
            r.node is None,
            r.keyframes@.len() == 0,
    {
        Track { target_name, node: None, keyframes: Vec::new() }
    }

    /// Appends a keyframe; times must strictly increase.
    pub fn add_keyframe(&mut self, time: u32, value: Transform)
        requires
            keys_sorted(old(self).keyframes@),
            old(self).keyframes@.len() > 0 ==> old(self).keyframes@[old(
                self,
            ).keyframes@.len() - 1].time < time,
        ensures
            final(self).keyframes@ == old(self).keyframes@.push(Keyframe { time, value }),
            keys_sorted(final(self).keyframes@),
            final(self).target_name == old(self).target_name,
            final(self).node == old(self).node,
    {
        self.keyframes.push(Keyframe { time, value });
    }

    /// The track's duration: the time of its last keyframe.
    pub fn duration(&self) -> (r: u32)
        ensures
            r == if self.keyframes@.len() == 0 {
                0
            } else {
                self.keyframes@[self.keyframes@.len() - 1].time as int
            },
    {
        if self.keyframes.len() == 0 {
            0
        } else {
            self.keyframes[self.keyframes.len() - 1].time
        }
    }

    /// Evaluates the track at `t` by binary search over the key times,
    /// clamping outside the keyed range; nothing on an empty track.
    pub fn sample_at(&self, t: u32) -> (r: Option<Transform>)
        requires
            keys_sorted(self.keyframes@),
        ensures
            (r is Some) == (self.keyframes@.len() > 0),
            self.keyframes@.len() > 0 ==> r == Some(eval_keys(self.keyframes@, t as int)),
    {
        let keys = &self.keyframes;
        if keys.len() == 0 {
            return None;
        }
        // lower bound: first index whose time is >= t
        let mut lo: usize = 0;
        let mut hi: usize = keys.len();
        while lo < hi
            invariant
                keys_sorted(keys@),
                lo <= hi <= keys@.len(),
                forall|j: int| 0 <= j < lo ==> keys@[j].time < t,
                forall|j: int| hi <= j < keys@.len() ==> keys@[j].time >= t,
            decreases hi - lo,
        {
            let mid = lo + (hi - lo) / 2;
            if keys[mid].time < t {
                proof {
                    assert forall|j: int| 0 <= j < mid + 1 implies keys@[j].time < t by {
                        if j < mid {
                            assert(keys@[j].time < keys@[mid as int].time);
                        }
                    }
                }
                lo = mid + 1;
            } else {
                proof {
                    assert forall|j: int| mid <= j < keys@.len() implies keys@[j].time >= t by {
                        if j > mid {
                            assert(keys@[mid as int].time < keys@[j].time);
                        }
                    }
                }
                hi = mid;
            }
        }
        if lo == 0 {
            proof {
                lemma_eval_at_start(keys@, t as int);
            }
            Some(keys[0].value)
        } else if lo == keys.len() {
            proof {
                lemma_eval_at_end(keys@, t as int);
            }
            Some(keys[keys.len() - 1].value)
        } else {
            let k0 = keys[lo - 1];
            let k1 = keys[lo];
            proof {
                lemma_eval_segment(keys@, t as int, lo - 1);
            }
            Some(lerp_transform(&k0.value, &k1.value, t - k0.time, k1.time - k0.time))
        }
    }
}

/// A named marker on the animation timeline with a unique id; the engine
/// reports each marker once whenever the cursor crosses its time.
pub struct AnimationSignal {
    pub id: u32,
    pub time: u32,
    pub name: String,
}

/// Whether advancing the cursor from `old_t` by `advance` crosses a marker
/// at `s`. The crossing interval is half-open, `(old_t, old_t + advance]`
/// in unwrapped time; on a looping track the marker recurs every `length`.
pub open spec fn crossed(old_t: int, advance: int, length: int, looped: bool, s: int) -> bool {
    if advance <= 0 {
        false
    } else if !looped {
        old_t < s <= old_t + advance
    } else if length <= 0 {
        false
    } else if advance >= length {
        true
    } else if old_t + advance <= length {
        old_t < s <= old_t + advance
    } else {
        s > old_t || s <= old_t + advance - length
    }
}

/// An animation: tracks and signals sharing one time cursor.
pub struct Animation {
    pub tracks: Vec<Track>,
    pub time_position: u32,
    pub length: u32,
    pub speed: u32,
    pub looped: bool,
    pub enabled: bool,
    pub signals: Vec<AnimationSignal>,
}

/// A pose: the per-node local transforms an animation produced at its
/// current time, ready to be written into a graph.
pub struct Pose {
    pub entries: Vec<(Handle, Transform)>,
}

/// The transform a node ends up with after a pose prefix of length `upto`
/// has been applied over graph `g0`: the last entry targeting it wins.
pub open spec fn applied_transform(
    entries: Seq<(Handle, Transform)>,
    g0: Graph,
    x: Handle,
    upto: int,
) -> Transform
    decreases upto,
{
    if upto <= 0 {
        g0.node_of(x).base.local_transform
    } else if entries[upto - 1].0 == x {
        entries[upto - 1].1
    } else {
        applied_transform(entries, g0, x, upto - 1)
    }
}

impl Animation {
    /// Every track's keyframes are ordered and end by `length`, signal ids
    /// are unique, signal times and the cursor stay within the length.
    pub open spec fn wf(self) -> bool {
        &&& forall|i: int|
            0 <= i < self.tracks@.len() ==> keys_sorted(#[trigger] self.tracks@[i].keyframes@)
        &&& forall|i: int, j: int|
            0 <= i < self.tracks@.len() && 0 <= j < self.tracks@[i].keyframes@.len()
                ==> #[trigger] self.tracks@[i].keyframes@[j].time <= self.length
        &&& forall|i: int, j: int|
            0 <= i < j < self.signals@.len() ==> self.signals@[i].id != self.signals@[j].id
        &&& forall|i: int| 0 <= i < self.signals@.len() ==> #[trigger] self.signals@[i].time <= self.length
        &&& self.time_position <= self.length
    }

    /// An empty, enabled, non-looping animation at normal speed.
    pub fn new() -> (r: Animation)
        ensures
            r.wf(),
            r.tracks@.len() == 0,
            r.signals@.len() == 0,
            r.time_position == 0,
            r.length == 0,
            r.speed == 1000,
            !r.looped,
            r.enabled,
    {
        Animation {
            tracks: Vec::new(),
            time_position: 0,
            length: 0,
            speed: 1000,
            looped: false,
            enabled: true,
            signals: Vec::new(),
        }
    }

    /// Adds a track; the animation's length grows to cover it.
    pub fn add_track(&mut self, track: Track)
        requires
            old(self).wf(),
            keys_sorted(track.keyframes@),
        ensures
            final(self).wf(),
            final(self).tracks@.len() == old(self).tracks@.len() + 1,
            final(self).tracks@[old(self).tracks@.len() as int] == track,
            forall|i: int|
                0 <= i < old(self).tracks@.len() ==> final(self).tracks@[i] == old(
                    self,
                ).tracks@[i],
            final(self).length >= old(self).length,
            final(self).signals == old(self).signals,
            final(self).time_position == old(self).time_position,
            final(self).looped == old(self).looped,
            final(self).enabled == old(self).enabled,
            final(self).speed == old(self).speed,
    {
        let d = track.duration();
        if d > self.length {
            self.length = d;
        }
        proof {
            assert forall|i: int, j: int|
                0 <= i < self.tracks@.len() + 1 && i < self.tracks@.len() && 0 <= j
                    < self.tracks@[i].keyframes@.len() implies #[trigger] self.tracks@[i].keyframes@[j].time
                <= self.length by {}
        }
        self.tracks.push(track);
        proof {
            let n = self.tracks@.len() - 1;
            assert forall|j: int| 0 <= j < self.tracks@[n].keyframes@.len() implies
                #[trigger] self.tracks@[n].keyframes@[j].time <= self.length by {
                let keys = self.tracks@[n].keyframes@;
                if j < keys.len() - 1 {
                    assert(keys[j].time < keys[keys.len() - 1].time);
                }
            }
        }
    }

    /// Adds a signal marker; its id must be fresh and its time within the
    /// animation.
    pub fn add_signal(&mut self, id: u32, time: u32, name: String)
        requires
            old(self).wf(),
            time <= old(self).length,
            forall|i: int| 0 <= i < old(self).signals@.len() ==> old(self).signals@[i].id != id,
        ensures
            final(self).wf(),
            final(self).signals@.len() == old(self).signals@.len() + 1,
            final(self).signals@[old(self).signals@.len() as int].id == id,
            final(self).signals@[old(self).signals@.len() as int].time == time,
            final(self).signals@[old(self).signals@.len() as int].name == name,
            forall|i: int|
                0 <= i < old(self).signals@.len() ==> final(self).signals@[i] == old(
                    self,
                ).signals@[i],
            final(self).tracks == old(self).tracks,
            final(self).time_position == old(self).time_position,
            final(self).length == old(self).length,
    {
        self.signals.push(AnimationSignal { id, time, name });
    }

    /// Looks up a signal's time by id, for the editor's property access.
    #[verifier::loop_isolation(false)]
    pub fn signal_time(&self, id: u32) -> (r: Option<u32>)
        requires
            self.wf(),
        ensures
            (r is Some) == (exists|i: int| 0 <= i < self.signals@.len() && self.signals@[i].id
                == id),
            forall|i: int|
                0 <= i < self.signals@.len() && self.signals@[i].id == id ==> r == Some(
                    self.signals@[i].time,
                ),
    {
        let mut i: usize = 0;
        while i < self.signals.len()
            invariant
                i <= self.signals@.len(),
                forall|j: int| 0 <= j < i ==> self.signals@[j].id != id,
            decreases self.signals@.len() - i,
        {
            if self.signals[i].id == id {
                proof {
                    assert forall|j: int|
                        0 <= j < self.signals@.len() && self.signals@[j].id == id implies
                        self.signals@[j].time == self.signals@[i as int].time by {
                        if j < i {
                        } else if j > i {
                            assert(self.signals@[i as int].id != self.signals@[j].id);
                        }
                    }
                }
                return Some(self.signals[i].time);
            }
            i = i + 1;
        }
        None
    }

    /// Moves a signal to a new time, returning the old time so the edit
    /// can be undone; fails with nothing when the id is unknown.
    #[verifier::loop_isolation(false)]
    pub fn set_signal_time(&mut self, id: u32, time: u32) -> (r: Option<u32>)
        requires
            old(self).wf(),
            time <= old(self).length,
        ensures
            final(self).wf(),
            final(self).tracks == old(self).tracks,
            final(self).time_position == old(self).time_position,
            final(self).length == old(self).length,
            final(self).signals@.len() == old(self).signals@.len(),
            (r is Some) == (exists|i: int| 0 <= i < old(self).signals@.len() && old(
                self,
            ).signals@[i].id == id),
            r is None ==> final(self).signals@ == old(self).signals@,
            forall|i: int|
                0 <= i < old(self).signals@.len() && old(self).signals@[i].id != id ==> final(self).signals@[i] == old(self).signals@[i],
            forall|i: int|
                0 <= i < old(self).signals@.len() && old(self).signals@[i].id == id ==> r
                    == Some(old(self).signals@[i].time) && final(self).signals@[i].id == id
                    && final(self).signals@[i].time == time && final(self).signals@[i].name
                    == old(self).signals@[i].name,
    {
        let ghost sigs0 = old(self).signals@;
        let mut i: usize = 0;
        while i < self.signals.len()
            invariant
                *self == *old(self),
                i <= sigs0.len(),
                forall|j: int| 0 <= j < i ==> sigs0[j].id != id,
            decreases sigs0.len() - i,
        {
            if self.signals[i].id == id {
                let old_time = self.signals[i].time;
                let name = self.signals[i].name.clone();
                self.signals[i] = AnimationSignal { id, time, name };
                proof {
                    assert(self.signals@ == sigs0.update(i as int, self.signals@[i as int]));
                    assert forall|a: int, b: int|
                        0 <= a < b < self.signals@.len() implies self.signals@[a].id
                        != self.signals@[b].id by {
                        assert(self.signals@[a].id == sigs0[a].id);
                        assert(self.signals@[b].id == sigs0[b].id);
                    }
                    assert forall|j: int|
                        0 <= j < sigs0.len() && sigs0[j].id == id implies j == i as int by {
                        if j > i {
                            assert(sigs0[i as int].id != sigs0[j].id);
                        }
                    }
                }
                return Some(old_time);
            }
            i = i + 1;
        }
        None
    }

    /// Advances the time cursor by `speed * dt / 1000`, wrapping on a
    /// looping animation and clamping otherwise, and returns the ids of
    /// every signal whose time the cursor crossed, each exactly once.
    #[verifier::loop_isolation(false)]
    pub fn update(&mut self, dt: u32) -> (events: Vec<u32>)
        requires
            old(self).wf(),
        ensures
            final(self).wf(),
            final(self).tracks == old(self).tracks,
            final(self).signals == old(self).signals,
            final(self).length == old(self).length,
            final(self).speed == old(self).speed,
            final(self).looped == old(self).looped,
            final(self).enabled == old(self).enabled,
            !old(self).enabled ==> final(self).time_position == old(self).time_position
                && events@.len() == 0,
            old(self).enabled ==> ({
                let adv = (dt * old(self).speed) / 1000;
                let raw = old(self).time_position + adv;
                &&& final(self).time_position == (if old(self).looped {
                    if old(self).length == 0 {
                        0
                    } else {
                        raw % (old(self).length as int)
                    }
                } else {
                    if raw <= old(self).length {
                        raw
                    } else {
                        old(self).length as int
                    }
                })
                &&& events@ == old(self).signals@.filter(
                    |s: AnimationSignal|
                        crossed(
                            old(self).time_position as int,
                            adv,
                            old(self).length as int,
                            old(self).looped,
                            s.time as int,
                        ),
                ).map_values(|s: AnimationSignal| s.id)
            }),
    {
        let mut events: Vec<u32> = Vec::new();
        if !self.enabled {
            return events;
        }
        let ghost me = *self;
        proof {
            assert((dt as int) * (me.speed as int) < 0x1_0000_0000_0000_0000) by (nonlinear_arith)
                requires
                    0 <= (dt as int) < 0x1_0000_0000,
                    0 <= (me.speed as int) < 0x1_0000_0000,
            ;
        }
        let adv: u64 = (dt as u64) * (self.speed as u64) / 1000;
        let raw: u64 = (self.time_position as u64) + adv;
        let ghost pred = |s: AnimationSignal|
            crossed(
                me.time_position as int,
                adv as int,
                me.length as int,
                me.looped,
                s.time as int,
            );
        // collect crossed signals
        let mut i: usize = 0;
        proof {
            assert(me.signals@.subrange(0, 0) =~= Seq::<AnimationSignal>::empty());
            assert(Seq::<AnimationSignal>::empty().filter(pred) =~= Seq::<
                AnimationSignal,
            >::empty()) by {
                reveal(Seq::filter);
            }
            assert(events@ =~= Seq::<AnimationSignal>::empty().filter(pred).map_values(
                |s: AnimationSignal| s.id,
            ));
        }
        while i < self.signals.len()
            invariant
                *self == me,
                me.wf(),
                adv == (dt * me.speed) / 1000,
                i <= me.signals@.len(),
                events@ == me.signals@.subrange(0, i as int).filter(pred).map_values(
                    |s: AnimationSignal| s.id,
                ),
                pred == (|s: AnimationSignal|
                    crossed(
                        me.time_position as int,
                        adv as int,
                        me.length as int,
                        me.looped,
                        s.time as int,
                    )),
            decreases me.signals@.len() - i,
        {
            let s_time = self.signals[i].time;
            let s_id = self.signals[i].id;
            let hit: bool = if adv == 0 {
                false
            } else if !self.looped {
                self.time_position < s_time && (s_time as u64) <= raw
            } else if self.length == 0 {
                false
            } else if adv >= self.length as u64 {
                true
            } else if raw <= self.length as u64 {
                self.time_position < s_time && (s_time as u64) <= raw
            } else {
                s_time > self.time_position || (s_time as u64) <= raw - (self.length as u64)
            };
            proof {
                assert(hit == pred(me.signals@[i as int]));
                assert(me.signals@.subrange(0, i + 1) =~= me.signals@.subrange(0, i as int).push(
                    me.signals@[i as int],
                ));
                me.signals@.subrange(0, i as int).lemma_filter_push(me.signals@[i as int], pred);
            }
            if hit {
                events.push(s_id);
                proof {
                    let f = |s: AnimationSignal| s.id;
                    let filt = me.signals@.subrange(0, i as int).filter(pred);
                    assert(filt.push(me.signals@[i as int]).map_values(f) =~= filt.map_values(
                        f,
                    ).push(me.signals@[i as int].id));
                    assert(events@ =~= me.signals@.subrange(0, i + 1).filter(pred).map_values(f));
                }
            }
            i = i + 1;
        }
        proof {
            assert(me.signals@.subrange(0, me.signals@.len() as int) =~= me.signals@);
        }
        // advance the cursor
        if self.looped {
            if self.length == 0 {
                self.time_position = 0;
            } else {
                self.time_position = (raw % (self.length as u64)) as u32;
            }
        } else {
            if raw <= self.length as u64 {
                self.time_position = raw as u32;
            } else {
                self.time_position = self.length;
            }
        }
        events
    }

    /// Rebinds this animation onto the subtree of `root`: each track whose
    /// bone name matches a node in that subtree is kept, bound to such a
    /// node; the rest are dropped. A partial or even empty match is a valid
    /// degenerate outcome, never an error.
    #[verifier::loop_isolation(false)]
    pub fn retarget(&self, graph: &Graph, root: Handle) -> (r: Animation)
        requires
            self.wf(),
            graph.wf(),
            graph.valid(root),
        ensures
            r.wf(),
            r.length == self.length,
            r.speed == self.speed,
            r.looped == self.looped,
            r.enabled == self.enabled,
            r.time_position == self.time_position,
            r.signals@ == self.signals@,
            retargeted_ok(r.tracks@, self.tracks@, *graph, root),
    {
        let ghost g = *graph;
        let mut tracks: Vec<Track> = Vec::new();
        let mut i: usize = 0;
        proof {
            assert(self.tracks@.subrange(0, 0) =~= Seq::<Track>::empty());
            assert(matched_tracks(Seq::<Track>::empty(), g, root) =~= Seq::<Track>::empty());
        }
        while i < self.tracks.len()
            invariant
                i <= self.tracks@.len(),
                retargeted_ok(tracks@, self.tracks@.subrange(0, i as int), g, root),
                forall|j: int|
                    0 <= j < tracks@.len() ==> keys_sorted(#[trigger] tracks@[j].keyframes@)
                        && (forall|k: int|
                        0 <= k < tracks@[j].keyframes@.len()
                            ==> #[trigger] tracks@[j].keyframes@[k].time <= self.length),
            decreases self.tracks@.len() - i,
        {
            let track = &self.tracks[i];
            let ghost prefix = self.tracks@.subrange(0, i as int);
            proof {
                assert(self.tracks@.subrange(0, i + 1) =~= prefix.push(self.tracks@[i as int]));
                assert(prefix.push(self.tracks@[i as int]).drop_last() =~= prefix);
                assert(prefix.push(self.tracks@[i as int]).last() == self.tracks@[i as int]);
            }
            match graph.find_by_name_in_subtree(root, &track.target_name) {
                Some(nh) => {
                    proof {
                        assert(g.has_named(root, track.target_name@));
                        assert(matched_tracks(self.tracks@.subrange(0, i + 1), g, root)
                            == matched_tracks(prefix, g, root).push(self.tracks@[i as int]));
                    }
                    let new_track = Track {
                        target_name: track.target_name.clone(),
                        node: Some(nh),
                        keyframes: copy_keyframes(&track.keyframes),
                    };
                    let ghost tracks0 = tracks@;
                    tracks.push(new_track);
                    proof {
                        let fp = matched_tracks(prefix, g, root);
                        let fnext = matched_tracks(self.tracks@.subrange(0, i + 1), g, root);
                        assert(fnext == fp.push(self.tracks@[i as int]));
                        assert forall|j: int| 0 <= j < tracks@.len() implies retargeted_track_ok(
                            #[trigger] tracks@[j],
                            fnext[j],
                            g,
                            root,
                        ) by {
                            if j < tracks0.len() {
                                assert(tracks@[j] == tracks0[j]);
                                assert(retargeted_track_ok(tracks0[j], fp[j], g, root));
                                assert(fnext[j] == fp[j]);
                            } else {
                                assert(tracks@[j] == new_track);
                                assert(fnext[j] == self.tracks@[i as int]);
                            }
                        }
                        assert forall|j: int| 0 <= j < tracks@.len() implies keys_sorted(
                            #[trigger] tracks@[j].keyframes@,
                        ) && (forall|k: int|
                            0 <= k < tracks@[j].keyframes@.len()
                                ==> #[trigger] tracks@[j].keyframes@[k].time <= self.length) by {
                            if j < tracks0.len() {
                                assert(tracks@[j] == tracks0[j]);
                            } else {
                                assert(tracks@[j] == new_track);
                                assert(keys_sorted(self.tracks@[i as int].keyframes@));
                                assert forall|k: int|
                                    0 <= k < self.tracks@[i as int].keyframes@.len() implies
                                    self.tracks@[i as int].keyframes@[k].time
                                    <= self.length by {}
                                assert(tracks@[j].keyframes@ == self.tracks@[i as int].keyframes@);
                            }
                        }
                    }
                },
                None => {
                    proof {
                        if g.has_named(root, track.target_name@) {
                            let x = choose|x: Handle|
                                g.valid(x) && g.in_subtree(root, x) && g.node_of(
                                    x,
                                ).base.name@ == track.target_name@;
                            assert(false);
                        }
                        assert(matched_tracks(self.tracks@.subrange(0, i + 1), g, root)
                            == matched_tracks(prefix, g, root));
                    }
                },
            }
            i = i + 1;
        }
        proof {
            assert(self.tracks@.subrange(0, self.tracks@.len() as int) =~= self.tracks@);
            assert(retargeted_ok(tracks@, self.tracks@, g, root));
        }
        let ghost tracksg = tracks@;
        let result = Animation {
            tracks,
            time_position: self.time_position,
            length: self.length,
            speed: self.speed,
            looped: self.looped,
            enabled: self.enabled,
            signals: copy_signals(&self.signals),
        };
        proof {
            assert(result.tracks@ == tracksg);
            assert(g == *graph);
            assert(retargeted_ok(result.tracks@, self.tracks@, *graph, root));
        }
        result
    }

    /// Evaluates every bound, non-empty track at the current cursor into a
    /// pose.
    #[verifier::loop_isolation(false)]
    pub fn get_pose(&self) -> (r: Pose)
        requires
            self.wf(),
        ensures
            r.entries@ == self.tracks@.filter(
                |tr: Track| tr.node is Some && tr.keyframes@.len() > 0,
            ).map_values(
                |tr: Track| (tr.node->0, eval_keys(tr.keyframes@, self.time_position as int)),
            ),
    {
        let ghost pred = |tr: Track| tr.node is Some && tr.keyframes@.len() > 0;
        let ghost f = |tr: Track|
            (tr.node->0, eval_keys(tr.keyframes@, self.time_position as int));
        let mut entries: Vec<(Handle, Transform)> = Vec::new();
        let mut i: usize = 0;
        proof {
            assert(self.tracks@.subrange(0, 0) =~= Seq::<Track>::empty());
            assert(Seq::<Track>::empty().filter(pred) =~= Seq::<Track>::empty()) by {
                reveal(Seq::filter);
            }
            assert(entries@ =~= Seq::<Track>::empty().filter(pred).map_values(f));
        }
        while i < self.tracks.len()
            invariant
                self.wf(),
                i <= self.tracks@.len(),
                entries@ == self.tracks@.subrange(0, i as int).filter(pred).map_values(f),
                pred == (|tr: Track| tr.node is Some && tr.keyframes@.len() > 0),
                f == (|tr: Track|
                    (tr.node->0, eval_keys(tr.keyframes@, self.time_position as int))),
            decreases self.tracks@.len() - i,
        {
            let track = &self.tracks[i];
            proof {
                assert(self.tracks@.subrange(0, i + 1) =~= self.tracks@.subrange(0, i as int).push(
                    self.tracks@[i as int],
                ));
                self.tracks@.subrange(0, i as int).lemma_filter_push(self.tracks@[i as int], pred);
            }
            match track.node {
                Some(node) => {
                    match track.sample_at(self.time_position) {
                        Some(value) => {
                            entries.push((node, value));
                            proof {
                                let filt = self.tracks@.subrange(0, i as int).filter(pred);
                                assert(filt.push(self.tracks@[i as int]).map_values(f) =~= filt.map_values(
                                    f,
                                ).push(f(self.tracks@[i as int])));
                                assert(entries@ =~= self.tracks@.subrange(0, i + 1).filter(
                                    pred,
                                ).map_values(f));
                            }
                        },
                        None => {},
                    }
                },
                None => {},
            }
            i = i + 1;
        }
        proof {
            assert(self.tracks@.subrange(0, self.tracks@.len() as int) =~= self.tracks@);
        }
        Pose { entries }
    }
}

/// The subsequence of `tracks` whose bone names have a match in the
/// subtree of `root`: exactly the tracks retargeting keeps.
pub open spec fn matched_tracks(tracks: Seq<Track>, g: Graph, root: Handle) -> Seq<Track>
    decreases tracks.len(),
{
    if tracks.len() == 0 {
        Seq::empty()
    } else {
        let rest = matched_tracks(tracks.drop_last(), g, root);
        if g.has_named(root, tracks.last().target_name@) {
            rest.push(tracks.last())
        } else {
            rest
        }
    }
}

/// What one retargeted track must satisfy against its source track: same
/// bone name and keyframes, bound to a live node of that name inside the
/// subtree of `root`.
pub open spec fn retargeted_track_ok(tr: Track, src: Track, g: Graph, root: Handle) -> bool {
    &&& tr.target_name@ == src.target_name@
    &&& tr.keyframes@ == src.keyframes@
    &&& match tr.node {
        Some(nh) => g.valid(nh) && g.in_subtree(root, nh) && g.node_of(nh).base.name@
            == src.target_name@,
        None => false,
    }
}

/// What a whole retargeted track list must satisfy: exactly the matched
/// source tracks, in order, each rebound per [`retargeted_track_ok`].
pub open spec fn retargeted_ok(tracksv: Seq<Track>, srcv: Seq<Track>, g: Graph, root: Handle) -> bool {
    &&& tracksv.len() == matched_tracks(srcv, g, root).len()
    &&& forall|j: int|
        0 <= j < tracksv.len() ==> retargeted_track_ok(
            #[trigger] tracksv[j],
            matched_tracks(srcv, g, root)[j],
            g,
            root,
        )
}

/// Copies a keyframe vector element by element.
fn copy_keyframes(v: &Vec<Keyframe>) -> (r: Vec<Keyframe>)
    ensures
        r@ == v@,
{
    let mut r: Vec<Keyframe> = Vec::new();
    let mut i: usize = 0;
    while i < v.len()
        invariant
            i <= v.len(),
            r@ == v@.subrange(0, i as int),
        decreases v.len() - i,
    {
        r.push(v[i]);
        proof {
            assert(r@ =~= v@.subrange(0, i + 1));
        }
        i = i + 1;
    }
    proof {
        assert(r@ =~= v@);
    }
    r
}

/// Copies a signal list element by element.
fn copy_signals(v: &Vec<AnimationSignal>) -> (r: Vec<AnimationSignal>)
    ensures
        r@ == v@,
{
    let mut r: Vec<AnimationSignal> = Vec::new();
    let mut i: usize = 0;
    while i < v.len()
        invariant
            i <= v.len(),
            r@ == v@.subrange(0, i as int),
        decreases v.len() - i,
    {
        let s = &v[i];
        r.push(AnimationSignal { id: s.id, time: s.time, name: s.name.clone() });
        proof {
            assert(r@[r@.len() - 1] == v@[i as int]);
            assert(r@ =~= v@.subrange(0, i + 1));
        }
        i = i + 1;
    }
    proof {
        assert(r@ =~= v@);
    }
    r
}

impl Pose {
    /// Writes each entry's transform into the targeted node's local
    /// transform, silently skipping handles that are no longer live, so one
    /// stale reference never aborts a whole frame.
    #[verifier::loop_isolation(false)]
    pub fn apply(&self, graph: &mut Graph)
        requires
            old(graph).wf(),
        ensures
            final(graph).wf(),
            forall|x: Handle| final(graph).valid(x) == old(graph).valid(x),
            final(graph).pool.count() == old(graph).pool.count(),
            forall|x: Handle|
                #[trigger] final(graph).valid(x) ==> ({
                    &&& final(graph).node_of(x).base.local_transform == applied_transform(
                        self.entries@,
                        *old(graph),
                        x,
                        self.entries@.len() as int,
                    )
                    &&& final(graph).node_of(x).base.parent == old(graph).node_of(x).base.parent
                    &&& final(graph).node_of(x).base.children@ == old(graph).node_of(
                        x,
                    ).base.children@
                    &&& final(graph).node_of(x).base.name == old(graph).node_of(x).base.name
                    &&& final(graph).node_of(x).kind == old(graph).node_of(x).kind
                }),
    {
        let ghost g0 = *graph;
        let mut i: usize = 0;
        while i < self.entries.len()
            invariant
                graph.wf(),
                i <= self.entries@.len(),
                forall|x: Handle| graph.valid(x) == g0.valid(x),
                graph.pool.count() == g0.pool.count(),
                forall|x: Handle|
                    #[trigger] graph.valid(x) ==> ({
                        &&& graph.node_of(x).base.local_transform == applied_transform(
                            self.entries@,
                            g0,
                            x,
                            i as int,
                        )
                        &&& graph.node_of(x).base.parent == g0.node_of(x).base.parent
                        &&& graph.node_of(x).base.children@ == g0.node_of(x).base.children@
                        &&& graph.node_of(x).base.name == g0.node_of(x).base.name
                        &&& graph.node_of(x).kind == g0.node_of(x).kind
                    }),
            decreases self.entries@.len() - i,
        {
            let (h, t) = self.entries[i];
            let ghost gpre = *graph;
            graph.set_local_transform(h, t);
            proof {
                assert forall|x: Handle| #[trigger] graph.valid(x) implies
                    graph.node_of(x).base.local_transform == applied_transform(
                    self.entries@,
                    g0,
                    x,
                    i + 1,
                ) by {
                    if x == h {
                        assert(self.entries@[i as int].0 == x);
                    } else {
                        assert(graph.node_of(x) == gpre.node_of(x));
                    }
                }
            }
            i = i + 1;
        }
    }
}

} // verus!
