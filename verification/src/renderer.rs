//! The debug line renderer and the render-pass bookkeeping it
//! demonstrates: a geometry buffer filled from a resettable line list, a
//! shader binding with one uniform, and per-pass statistics.
//!
//! Each pass rebuilds the vertex and index staging buffers from the line
//! list, uploads them once, and then issues exactly one draw call per
//! scene that has an active camera, binding that camera's view-projection
//! matrix; statistics are never double-counted across scenes.

use vstd::prelude::*;
use crate::error::EngineError;
use crate::math::{Color, Matrix4, Vector3};
use crate::pool::{Handle, Pool};
use crate::scene::{Scene, SceneContainer};

verus! {

/// Counters accumulated over one render pass across all scenes.
#[derive(Clone, Copy, PartialEq, Eq, Structural, Debug)]
pub struct RenderPassStatistics {
    pub draw_calls: u64,
    pub triangle_count: u64,
}

impl Default for RenderPassStatistics {
    /// Fresh counters, reset at the start of each frame.
    fn default() -> (r: RenderPassStatistics)
        ensures
            r.draw_calls == 0,
            r.triangle_count == 0,
    {
        RenderPassStatistics { draw_calls: 0, triangle_count: 0 }
    }
}

impl RenderPassStatistics {
    /// Folds another pass's counters into this one, saturating rather
    /// than wrapping.
    pub fn accumulate(&mut self, other: &RenderPassStatistics)
        ensures
            final(self).draw_calls == if old(self).draw_calls + other.draw_calls <= u64::MAX {
                old(self).draw_calls + other.draw_calls
            } else {
                u64::MAX as int
            },
            final(self).triangle_count == if old(self).triangle_count + other.triangle_count
                <= u64::MAX {
                old(self).triangle_count + other.triangle_count
            } else {
                u64::MAX as int
            },
    {
        self.draw_calls = if self.draw_calls <= u64::MAX - other.draw_calls {
            self.draw_calls + other.draw_calls
        } else {
            u64::MAX
        };
        self.triangle_count = if self.triangle_count <= u64::MAX - other.triangle_count {
            self.triangle_count + other.triangle_count
        } else {
            u64::MAX
        };
    }
}

/// One staged vertex: a position and a packed RGBA color.
#[derive(Clone, Copy, PartialEq, Eq, Structural, Debug)]
pub struct Vertex {
    pub position: Vector3,
    pub color: u32,
}

/// How often a geometry buffer's contents are expected to change.
#[derive(Clone, Copy, PartialEq, Eq, Structural, Debug)]
pub enum GeometryBufferKind {
    StaticDraw,
    DynamicDraw,
}

/// What primitive the index buffer encodes.
#[derive(Clone, Copy, PartialEq, Eq, Structural, Debug)]
pub enum ElementKind {
    Triangle,
    Line,
}

/// The component layout of one vertex attribute.
#[derive(Clone, Copy, PartialEq, Eq, Structural, Debug)]
pub enum AttributeKind {
    Float3,
    UnsignedByte4,
}

/// One attribute of the vertex layout, declared once at buffer creation.
#[derive(Clone, Copy, PartialEq, Eq, Structural, Debug)]
pub struct AttributeDefinition {
    pub kind: AttributeKind,
    pub normalized: bool,
}

/// A vertex/index buffer pair with a declared attribute layout.
pub struct GeometryBuffer {
    pub kind: GeometryBufferKind,
    pub element_kind: ElementKind,
    pub attributes: Vec<AttributeDefinition>,
    pub vertices: Vec<Vertex>,
    pub lines: Vec<[u32; 2]>,
}

/// Copies a vertex vector element by element.
fn copy_vertices(v: &Vec<Vertex>) -> (r: Vec<Vertex>)
    ensures
        r@ == v@,
{
    let mut r: Vec<Vertex> = Vec::new();
    let mut i: usize = 0;
    while i < v.len()
        invariant
            i <= v.len(),
            r@ == v@.subrange(0, i as int),
        decreases v.len() - i,
    {
        r.push(v[i]);
        proof {
            assert(r@ =~= v@.subrange(0, i + 1));
        }
        i = i + 1;
    }
    proof {
        assert(r@ =~= v@);
    }
    r
}

/// Copies an index-pair vector element by element.
fn copy_pairs(v: &Vec<[u32; 2]>) -> (r: Vec<[u32; 2]>)
    ensures
        r@ == v@,
{
    let mut r: Vec<[u32; 2]> = Vec::new();
    let mut i: usize = 0;
    while i < v.len()
        invariant
            i <= v.len(),
            r@ == v@.subrange(0, i as int),
        decreases v.len() - i,
    {
        r.push(v[i]);
        proof {
            assert(r@ =~= v@.subrange(0, i + 1));
        }
        i = i + 1;
    }
    proof {
        assert(r@ =~= v@);
    }
    r
}

impl GeometryBuffer {
    /// An empty buffer of the given kinds, its layout not yet declared.
    pub fn new(kind: GeometryBufferKind, element_kind: ElementKind) -> (r: GeometryBuffer)
        ensures
            r.kind == kind,
            r.element_kind == element_kind,
            r.attributes@.len() == 0,
            r.vertices@.len() == 0,
            r.lines@.len() == 0,
    {
        GeometryBuffer {
            kind,
            element_kind,
            attributes: Vec::new(),
            vertices: Vec::new(),
            lines: Vec::new(),
        }
    }

    /// Declares the vertex layout; the declaration always succeeds here
    /// and is recorded verbatim.
    pub fn describe_attributes(&mut self, defs: Vec<AttributeDefinition>) -> (r: Result<
        (),
        EngineError,
    >)
        ensures
            r is Ok,
            final(self).attributes@ == defs@,
            final(self).kind == old(self).kind,
            final(self).element_kind == old(self).element_kind,
            final(self).vertices == old(self).vertices,
            final(self).lines == old(self).lines,
    {
        self.attributes = defs;
        Ok(())
    }

    /// Uploads a fresh copy of the staged vertices.
    pub fn set_vertices(&mut self, vertices: &Vec<Vertex>)
        ensures
            final(self).vertices@ == vertices@,
            final(self).kind == old(self).kind,
            final(self).element_kind == old(self).element_kind,
            final(self).attributes == old(self).attributes,
            final(self).lines == old(self).lines,
    {
        self.vertices = copy_vertices(vertices);
    }

    /// Uploads a fresh copy of the staged line indices.
    pub fn set_lines(&mut self, lines: &Vec<[u32; 2]>)
        ensures
            final(self).lines@ == lines@,
            final(self).kind == old(self).kind,
            final(self).element_kind == old(self).element_kind,
            final(self).attributes == old(self).attributes,
            final(self).vertices == old(self).vertices,
    {
        self.lines = copy_pairs(lines);
    }

    /// Issues one draw call over the whole buffer; reports how many line
    /// elements it covered.
    pub fn draw(&self) -> (r: usize)
        ensures
            r == self.lines@.len(),
    {
        self.lines.len()
    }
}

/// The debug renderer's shader: one program with one uniform, the
/// world-view-projection matrix.
pub struct DebugShader {
    pub bound: bool,
    pub wvp_matrix: Matrix4,
}

impl DebugShader {
    /// Builds the shader program. Shader compilation is fatal at startup,
    /// so the error branch of the result is how such a failure would
    /// surface before the frame loop begins.
    pub fn new() -> (r: Result<DebugShader, EngineError>)
        ensures
            r is Ok,
            !(r->Ok_0).bound,
    {
        Ok(DebugShader { bound: false, wvp_matrix: Matrix4::identity() })
    }

    /// Makes this program current for subsequent draw calls.
    pub fn bind(&mut self)
        ensures
            final(self).bound,
            final(self).wvp_matrix == old(self).wvp_matrix,
    {
        self.bound = true;
    }

    /// Sets the world-view-projection uniform.
    pub fn set_wvp_matrix(&mut self, mat: &Matrix4)
        ensures
            final(self).wvp_matrix == *mat,
            final(self).bound == old(self).bound,
    {
        self.wvp_matrix = *mat;
    }
}

/// One debug line segment with its color.
#[derive(Clone, Copy, PartialEq, Debug)]
pub struct Line {
    pub begin: Vector3,
    pub end: Vector3,
    pub color: Color,
}

/// Whether a scene holds a camera node.
pub open spec fn scene_has_camera(s: Scene) -> bool {
    exists|x: Handle| s.graph.valid(x) && s.graph.node_of(x).kind is Camera
}

/// The camera a scene renders through: its first camera node in pool
/// order.
pub open spec fn scene_camera(s: Scene) -> Handle {
    choose|c: Handle|
        s.graph.valid(c) && s.graph.node_of(c).kind is Camera && forall|x: Handle|
            s.graph.valid(x) && s.graph.node_of(x).kind is Camera ==> c.index <= x.index
}

/// How many of the first `n` scene slots hold a scene with a camera.
pub open spec fn camera_scene_count(pool: Pool<Scene>, n: int) -> int
    decreases n,
{
    if n <= 0 {
        0
    } else {
        camera_scene_count(pool, n - 1) + if pool.occ(n - 1) && scene_has_camera(
            pool.at(pool.handle_at(n - 1)),
        ) {
            1int
        } else {
            0int
        }
    }
}

/// The view-projection uniform left after walking the first `n` scene
/// slots: the camera matrix of the last camera scene, else `init`.
pub open spec fn wvp_after(pool: Pool<Scene>, n: int, init: Matrix4) -> Matrix4
    decreases n,
{
    if n <= 0 {
        init
    } else if pool.occ(n - 1) && scene_has_camera(pool.at(pool.handle_at(n - 1))) {
        let s = pool.at(pool.handle_at(n - 1));
        s.graph.node_of(scene_camera(s)).kind->Camera_0.view_projection
    } else {
        wvp_after(pool, n - 1, init)
    }
}

/// The immediate-mode line renderer used for diagnostics.
pub struct DebugRenderer {
    pub geometry: GeometryBuffer,
    pub lines: Vec<Line>,
    pub vertices: Vec<Vertex>,
    pub line_indices: Vec<[u32; 2]>,
    pub shader: DebugShader,
}

impl DebugRenderer {
    /// Builds the renderer: a dynamic line buffer whose layout is one
    /// float3 position and one normalized byte4 color, plus the shader.
    pub fn new() -> (r: Result<DebugRenderer, EngineError>)
        ensures
            r is Ok,
            ({
                let d = r->Ok_0;
                &&& d.lines@.len() == 0
                &&& d.vertices@.len() == 0
                &&& d.line_indices@.len() == 0
                &&& d.geometry.kind == GeometryBufferKind::DynamicDraw
                &&& d.geometry.element_kind == ElementKind::Line
                &&& d.geometry.attributes@ == seq![
                    AttributeDefinition { kind: AttributeKind::Float3, normalized: false },
                    AttributeDefinition { kind: AttributeKind::UnsignedByte4, normalized: true },
                ]
            }),
    {
        let mut geometry = GeometryBuffer::new(GeometryBufferKind::DynamicDraw, ElementKind::Line);
        let mut defs: Vec<AttributeDefinition> = Vec::new();
        defs.push(AttributeDefinition { kind: AttributeKind::Float3, normalized: false });
        defs.push(AttributeDefinition { kind: AttributeKind::UnsignedByte4, normalized: true });
        proof {
            assert(defs@ =~= seq![
                AttributeDefinition { kind: AttributeKind::Float3, normalized: false },
                AttributeDefinition { kind: AttributeKind::UnsignedByte4, normalized: true },
            ]);
        }
        let describe_result = geometry.describe_attributes(defs);
        let shader = match DebugShader::new() {
            Ok(shader) => shader,
            Err(e) => {
                proof {
                    assert(false);
                }
                return Err(e);
            },
        };
        match describe_result {
            Ok(_) => {},
            Err(e) => {
                proof {
                    assert(false);
                }
                return Err(e);
            },
        }
        Ok(DebugRenderer {
            geometry,
            shader,
            lines: Vec::new(),
            vertices: Vec::new(),
            line_indices: Vec::new(),
        })
    }

    /// Queues one line for the next pass.
    pub fn add_line(&mut self, line: Line)
        ensures
            final(self).lines@ == old(self).lines@.push(line),
            final(self).geometry == old(self).geometry,
            final(self).vertices == old(self).vertices,
            final(self).line_indices == old(self).line_indices,
            final(self).shader == old(self).shader,
    {
        self.lines.push(line);
    }

    /// Clears the queued lines.
    pub fn clear_lines(&mut self)
        ensures
            final(self).lines@.len() == 0,
            final(self).geometry == old(self).geometry,
            final(self).vertices == old(self).vertices,
            final(self).line_indices == old(self).line_indices,
            final(self).shader == old(self).shader,
    {
        self.lines.clear()
    }

    /// Expands every queued line into two staging vertices and one index
    /// pair, and uploads both to the geometry buffer.
    #[verifier::loop_isolation(false)]
    fn stage_lines(&mut self)
        requires
            old(self).lines@.len() * 2 < 0x1_0000_0000,
        ensures
            final(self).lines == old(self).lines,
            final(self).shader == old(self).shader,
            final(self).vertices@.len() == 2 * old(self).lines@.len(),
            final(self).line_indices@.len() == old(self).lines@.len(),
            forall|i: int|
                #![trigger old(self).lines@[i]]
                0 <= i < old(self).lines@.len() ==> ({
                    let line = old(self).lines@[i];
                    &&& final(self).vertices@[2 * i] == (Vertex {
                        position: line.begin,
                        color: line.color.packed() as u32,
                    })
                    &&& final(self).vertices@[2 * i + 1] == (Vertex {
                        position: line.end,
                        color: line.color.packed() as u32,
                    })
                    &&& final(self).line_indices@[i]@ == seq![(2 * i) as u32, (2 * i + 1) as u32]
                }),
            final(self).geometry.vertices@ == final(self).vertices@,
            final(self).geometry.lines@ == final(self).line_indices@,
            final(self).geometry.kind == old(self).geometry.kind,
            final(self).geometry.element_kind == old(self).geometry.element_kind,
            final(self).geometry.attributes == old(self).geometry.attributes,
    {
        self.vertices.clear();
        self.line_indices.clear();
        let mut i: usize = 0;
        while i < self.lines.len()
            invariant
                self.lines == old(self).lines,
                self.shader == old(self).shader,
                self.geometry == old(self).geometry,
                i <= self.lines@.len(),
                self.vertices@.len() == 2 * i,
                self.line_indices@.len() == i,
                forall|j: int|
                    #![trigger self.lines@[j]]
                    0 <= j < i ==> ({
                        let line = self.lines@[j];
                        &&& self.vertices@[2 * j] == (Vertex {
                            position: line.begin,
                            color: line.color.packed() as u32,
                        })
                        &&& self.vertices@[2 * j + 1] == (Vertex {
                            position: line.end,
                            color: line.color.packed() as u32,
                        })
                        &&& self.line_indices@[j]@ == seq![(2 * j) as u32, (2 * j + 1) as u32]
                    }),
            decreases self.lines@.len() - i,
        {
            let line = self.lines[i];
            let color = line.color.to_rgba32();
            self.vertices.push(Vertex { position: line.begin, color });
            self.vertices.push(Vertex { position: line.end, color });
            let a = (2 * i) as u32;
            let b = (2 * i + 1) as u32;
            self.line_indices.push([a, b]);
            proof {
                assert(self.line_indices@[i as int]@ =~= seq![(2 * i) as u32, (2 * i + 1) as u32]);
            }
            i = i + 1;
        }
        self.geometry.set_vertices(&self.vertices);
        self.geometry.set_lines(&self.line_indices);
    }

    /// Walks the scenes in pool order and issues one draw call for each
    /// scene that has an active camera, binding that camera's matrix.
    #[verifier::loop_isolation(false)]
    #[verifier::rlimit(100)]
    fn draw_scenes(&mut self, scenes: &SceneContainer) -> (statistics: RenderPassStatistics)
        ensures
            statistics.draw_calls == camera_scene_count(scenes.pool, scenes.pool.slot_count()),
            statistics.triangle_count == 0,
            final(self).lines == old(self).lines,
            final(self).vertices == old(self).vertices,
            final(self).line_indices == old(self).line_indices,
            final(self).geometry == old(self).geometry,
            final(self).shader.bound == old(self).shader.bound,
            final(self).shader.wvp_matrix == wvp_after(
                scenes.pool,
                scenes.pool.slot_count(),
                old(self).shader.wvp_matrix,
            ),
    {
        let mut statistics = RenderPassStatistics::default();
        let mut si: usize = 0;
        let n = scenes.pool.slot_len();
        while si < n
            invariant
                n == scenes.pool.slot_count(),
                si <= n,
                self.lines == old(self).lines,
                self.vertices == old(self).vertices,
                self.line_indices == old(self).line_indices,
                self.geometry == old(self).geometry,
                self.shader.bound == old(self).shader.bound,
                statistics.draw_calls == camera_scene_count(scenes.pool, si as int),
                statistics.triangle_count == 0,
                statistics.draw_calls <= si,
                self.shader.wvp_matrix == wvp_after(
                    scenes.pool,
                    si as int,
                    old(self).shader.wvp_matrix,
                ),
            decreases n - si,
        {
            match scenes.pool.handle_of(si) {
                Some(sh) => {
                    let scene = match scenes.pool.get(sh) {
                        Some(s) => s,
                        None => {
                            proof {
                                assert(false);
                            }
                            return statistics;
                        },
                    };
                    match scene.graph.first_camera() {
                        Some(camera_handle) => {
                            let camera_node = match scene.graph.get(camera_handle) {
                                Some(nn) => nn,
                                None => {
                                    proof {
                                        assert(false);
                                    }
                                    return statistics;
                                },
                            };
                            match camera_node.as_camera() {
                                Some(camera) => {
                                    proof {
                                        let s = scenes.pool.at(scenes.pool.handle_at(si as int));
                                        assert(scenes.pool.handle_at(si as int) == sh);
                                        assert(scene_has_camera(s));
                                        let c = scene_camera(s);
                                        assert(s.graph.valid(c) && s.graph.node_of(
                                            c,
                                        ).kind is Camera && forall|x: Handle|
                                            s.graph.valid(x) && s.graph.node_of(
                                                x,
                                            ).kind is Camera ==> c.index <= x.index);
                                        assert(c.index <= camera_handle.index);
                                        assert(camera_handle.index <= c.index);
                                        assert(c == camera_handle);
                                    }
                                    self.shader.set_wvp_matrix(&camera.view_projection);
                                    let _ = self.geometry.draw();
                                    statistics.draw_calls = statistics.draw_calls + 1;
                                },
                                None => {
                                    proof {
                                        assert(false);
                                    }
                                    return statistics;
                                },
                            }
                        },
                        None => {
                            proof {
                                let s = scenes.pool.at(scenes.pool.handle_at(si as int));
                                assert(scenes.pool.handle_at(si as int) == sh);
                                if scene_has_camera(s) {
                                    let x = choose|x: Handle|
                                        s.graph.valid(x) && s.graph.node_of(x).kind is Camera;
                                    assert(false);
                                }
                            }
                        },
                    }
                },
                None => {},
            }
            si = si + 1;
        }
        statistics
    }

    /// One render pass: expands every queued line into two vertices and
    /// one index pair, uploads both once, and then draws once per scene
    /// that has an active camera, binding that camera's view-projection.
    /// The draw-call count equals the number of camera scenes, no matter
    /// how many lines are queued.
    pub fn render(&mut self, scenes: &SceneContainer) -> (statistics: RenderPassStatistics)
        requires
            old(self).lines@.len() * 2 < 0x1_0000_0000,
        ensures
            statistics.draw_calls == camera_scene_count(scenes.pool, scenes.pool.slot_count()),
            statistics.triangle_count == 0,
            final(self).lines == old(self).lines,
            final(self).vertices@.len() == 2 * old(self).lines@.len(),
            forall|i: int|
                #![trigger old(self).lines@[i]]
                0 <= i < old(self).lines@.len() ==> ({
                    let line = old(self).lines@[i];
                    &&& final(self).vertices@[2 * i] == (Vertex {
                        position: line.begin,
                        color: line.color.packed() as u32,
                    })
                    &&& final(self).vertices@[2 * i + 1] == (Vertex {
                        position: line.end,
                        color: line.color.packed() as u32,
                    })
                    &&& final(self).line_indices@[i]@ == seq![(2 * i) as u32, (2 * i + 1) as u32]
                }),
            final(self).line_indices@.len() == old(self).lines@.len(),
            final(self).geometry.vertices@ == final(self).vertices@,
            final(self).geometry.lines@ == final(self).line_indices@,
            final(self).shader.bound,
            final(self).shader.wvp_matrix == wvp_after(
                scenes.pool,
                scenes.pool.slot_count(),
                old(self).shader.wvp_matrix,
            ),
    {
        self.shader.bind();
        self.stage_lines();
        self.draw_scenes(scenes)
    }
}

/// The shader state after binding: bound, uniform untouched.
pub open spec fn final_shader_after_bind(s: DebugShader) -> DebugShader {
    DebugShader { bound: true, wvp_matrix: s.wvp_matrix }
}

} // verus!
