//! The GPU-facing vertex buffer's growth policy, modeled as a byte capacity
//! and a draw count apart from the graphics handle itself: when a frame's
//! vertex bytes exceed the capacity, the buffer is reallocated at twice the
//! required size — not twice the prior capacity — to amortize future growth;
//! its contents need not survive, as every frame rewrites it whole.

use vstd::prelude::*;
use crate::note::MidiNote;
use crate::project::{FrameConfig, Vertex, spec_visible_rects, spec_frame_vertices, visible_rects,
    frame_vertices, lemma_visible_rects_len};
use crate::loader::notes_bounded;

verus! {

/// Bytes per vertex as the renderer stores it: a two-float position and a
/// three-float color.
pub const VERTEX_BYTES: u64 = 20;

/// How many bytes `n` vertices take.
pub open spec fn required_bytes(n: u64) -> int {
    n * VERTEX_BYTES
}

/// Whether `n` vertices exceed a capacity.
pub open spec fn needs_growth(capacity_bytes: u64, n: u64) -> bool {
    required_bytes(n) > capacity_bytes
}

/// The capacity after serving `n` vertices: twice the required size on
/// growth, untouched otherwise.
pub open spec fn grown_capacity(capacity_bytes: u64, n: u64) -> int {
    if needs_growth(capacity_bytes, n) {
        2 * required_bytes(n)
    } else {
        capacity_bytes as int
    }
}

/// The state the renderer keeps between frames: the buffer's byte capacity
/// and how many vertices the next draw call covers.
pub struct VertexBuffer {
    pub capacity_bytes: u64,
    pub num_vertices: u64,
}

impl VertexBuffer {
    /// A buffer of the given initial capacity with nothing to draw.
    pub fn new(capacity_bytes: u64) -> (r: VertexBuffer)
        ensures
            r.capacity_bytes == capacity_bytes,
            r.num_vertices == 0,
    {
        VertexBuffer { capacity_bytes, num_vertices: 0 }
    }

    /// Makes room for a frame of `n` vertices and sets the draw count. When
    /// the bytes required exceed the capacity, the capacity becomes exactly
    /// twice the required size and the new size is returned so the host can
    /// reallocate; otherwise the buffer is retained and nothing is returned.
    pub fn prepare_frame(&mut self, n: u64) -> (realloc: Option<u64>)
        requires
            2 * required_bytes(n) <= u64::MAX,
        ensures
            final(self).num_vertices == n,
            final(self).capacity_bytes == grown_capacity(old(self).capacity_bytes, n),
            realloc == if needs_growth(old(self).capacity_bytes, n) {
                Some((2 * required_bytes(n)) as u64)
            } else {
                None::<u64>
            },
            !needs_growth(final(self).capacity_bytes, n),
    {
        let required = n * VERTEX_BYTES;
        self.num_vertices = n;
        if required > self.capacity_bytes {
            let new_capacity = required * 2;
            self.capacity_bytes = new_capacity;
            Some(new_capacity)
        } else {
            None
        }
    }
}

/// Buffer growth idempotence: after a frame of `n` vertices, any frame of at
/// most `n` vertices fits in the capacity left behind, so it reallocates
/// nothing — whether or not the first frame grew the buffer.
pub proof fn lemma_buffer_growth_idempotent(capacity_bytes: u64, n: u64, m: u64)
    requires
        m <= n,
        2 * required_bytes(n) <= u64::MAX,
    ensures
        !needs_growth(grown_capacity(capacity_bytes, n) as u64, m),
{
}

/// One frame: projects the notes visible at `now_us` into vertex data and
/// sizes the buffer for it. The vertex list is returned with the
/// reallocation request, if growth was needed; the host copies the bytes and
/// draws `buffer.num_vertices` vertices. When no note is visible, the vertex
/// list is empty, the draw count zero, and the buffer untouched.
pub fn update_frame(
    buffer: &mut VertexBuffer,
    notes: &Vec<MidiNote>,
    now_us: u64,
    cfg: &FrameConfig,
) -> (out: (Vec<Vertex>, Option<u64>))
    requires
        cfg.fall_duration_us >= 1,
        notes_bounded(notes@),
        notes@.len() * 240 <= u64::MAX,
    ensures
        out.0@ == spec_frame_vertices(spec_visible_rects(notes@, now_us, *cfg)),
        final(buffer).num_vertices == out.0@.len(),
        final(buffer).capacity_bytes == grown_capacity(
            old(buffer).capacity_bytes,
            out.0@.len() as u64,
        ),
        out.1 == if needs_growth(old(buffer).capacity_bytes, out.0@.len() as u64) {
            Some((2 * required_bytes(out.0@.len() as u64)) as u64)
        } else {
            None::<u64>
        },
        spec_visible_rects(notes@, now_us, *cfg).len() == 0 ==> out.0@.len() == 0 && out.1
            is None && final(buffer).capacity_bytes == old(buffer).capacity_bytes
            && final(buffer).num_vertices == 0,
{
    let rects = visible_rects(notes, now_us, cfg);
    proof {
        lemma_visible_rects_len(notes@, now_us, *cfg);
    }
    let vertices = frame_vertices(&rects);
    let n = vertices.len() as u64;
    let realloc = buffer.prepare_frame(n);
    (vertices, realloc)
}

} // verus!
