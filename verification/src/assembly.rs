use vstd::prelude::*;

use crate::math::Ivec2;

verus! {

/// Number of groups of three (the last one possibly shorter) in `n` items.
pub open spec fn chunk_count(n: int) -> int {
    (n + 2) / 3
}

/// The vertex indices of the `t`-th group of three consecutive vertices out of
/// `n` (the last group holds what is left).
pub open spec fn vertex_chunk(n: int, t: int) -> Seq<usize> {
    let len = if n - 3 * t < 3 { n - 3 * t } else { 3 };
    Seq::new(len as nat, |i: int| (3 * t + i) as usize)
}

/// The vertex indices of the `t`-th triangle of an index list.
pub open spec fn indexed_chunk(indices: Seq<u32>, t: int) -> Seq<usize> {
    seq![indices[3 * t] as usize, indices[3 * t + 1] as usize, indices[3 * t + 2] as usize]
}

/// The groups of vertex indices that form triangles: consecutive vertices taken
/// three at a time, or, with an index list, its entries taken three at a time.
pub open spec fn primitives_spec(vertex_count: int, indices: Option<Seq<u32>>) -> Seq<Seq<usize>> {
    match indices {
        None => Seq::new(chunk_count(vertex_count) as nat, |t: int| vertex_chunk(vertex_count, t)),
        Some(ind) => Seq::new((ind.len() / 3) as nat, |t: int| indexed_chunk(ind, t)),
    }
}

/// Splits a vertex list (or an index list into it) into the groups of vertex
/// indices that make up its triangles, in drawing order. Without indices the
/// last group may hold fewer than three vertices; with indices every group holds
/// three, and each index must name a vertex.
pub fn assemble_primitives(vertex_count: usize, indices: Option<&[u32]>) -> (r: Vec<Vec<usize>>)
    requires
        indices matches Some(ind) ==> {
            &&& ind@.len() % 3 == 0
            &&& forall|i: int| 0 <= i < ind@.len() ==> (#[trigger] ind@[i]) < vertex_count
        },
    ensures
        r@.len() == primitives_spec(
            vertex_count as int,
            match indices {
                Some(ind) => Some(ind@),
                None => None,
            },
        ).len(),
        forall|t: int|
            0 <= t < r@.len() ==> (#[trigger] r@[t])@ == primitives_spec(
                vertex_count as int,
                match indices {
                    Some(ind) => Some(ind@),
                    None => None,
                },
            )[t],
{
    let mut out: Vec<Vec<usize>> = Vec::new();
    match indices {
        Some(ind) => {
            let ghost spec = primitives_spec(vertex_count as int, Some(ind@));
            let mut t: usize = 0;
            let len = ind.len();
            let n = len / 3;
            while t < n
                invariant
                    len == ind@.len(),
                    n == len / 3,
                    ind@.len() % 3 == 0,
                    spec == primitives_spec(vertex_count as int, Some(ind@)),
                    t <= n,
                    out@.len() == t,
                    forall|s: int| 0 <= s < t ==> (#[trigger] out@[s])@ == spec[s],
                decreases n - t,
            {
                let mut tri: Vec<usize> = Vec::new();
                tri.push(ind[3 * t] as usize);
                tri.push(ind[3 * t + 1] as usize);
                tri.push(ind[3 * t + 2] as usize);
                assert(tri@ =~= spec[t as int]);
                out.push(tri);
                t += 1;
            }
        },
        None => {
            let ghost spec = primitives_spec(vertex_count as int, None);
            let mut start: usize = 0;
            let ghost mut t: int = 0;
            while start < vertex_count
                invariant
                    spec == primitives_spec(vertex_count as int, None),
                    start < vertex_count ==> start == 3 * t,
                    0 <= t,
                    start < vertex_count ==> t < chunk_count(vertex_count as int),
                    start >= vertex_count ==> t == chunk_count(vertex_count as int),
                    out@.len() == t,
                    forall|s: int| 0 <= s < t ==> (#[trigger] out@[s])@ == spec[s],
                decreases vertex_count - start,
            {
                let mut chunk: Vec<usize> = Vec::new();
                let end = if vertex_count - start < 3 { vertex_count } else { start + 3 };
                let mut i = start;
                while i < end
                    invariant
                        start <= i <= end,
                        end - start <= 3,
                        chunk@.len() == i - start,
                        forall|j: int| 0 <= j < chunk@.len() ==> #[trigger] chunk@[j] == start + j,
                    decreases end - i,
                {
                    chunk.push(i);
                    i += 1;
                }
                assert(chunk@ =~= spec[t]);
                out.push(chunk);
                start = end;
                proof {
                    t = t + 1;
                }
            }
        },
    }
    out
}

/// Why an index list cannot be drawn whole.
#[derive(PartialEq, Eq, Structural, Debug, Clone, Copy)]
pub enum IndexFault {
    /// an index that names no vertex
    OutOfRange(u32),
    /// the list ends in a triangle with only this many indices
    Incomplete(usize),
}

/// The first `n` indices form whole triangles whose indices all name vertices.
pub open spec fn drawable_prefix(indices: Seq<u32>, vertex_count: int, n: int) -> bool {
    &&& 0 <= n <= indices.len()
    &&& n % 3 == 0
    &&& forall|i: int| 0 <= i < n ==> (#[trigger] indices[i]) < vertex_count
}

/// Checks an index list against a vertex list before drawing. Returns the number
/// of leading indices that form whole triangles naming vertices, which are drawn,
/// and, when that is not the whole list, why the next triangle cannot be: its
/// first index (in order) that names no vertex, or else that the list ends
/// before the triangle is complete.
pub fn check_index_list(indices: &[u32], vertex_count: usize) -> (r: (usize, Option<IndexFault>))
    ensures
        drawable_prefix(indices@, vertex_count as int, r.0 as int),
        match r.1 {
            None => r.0 == indices@.len(),
            Some(IndexFault::OutOfRange(bad)) => exists|k: int|
                r.0 <= k < indices@.len() && k < r.0 + 3 && #[trigger] indices@[k] == bad && bad
                    >= vertex_count && forall|j: int|
                    r.0 <= j < k ==> (#[trigger] indices@[j]) < vertex_count,
            Some(IndexFault::Incomplete(len)) => {
                &&& len == indices@.len() - r.0
                &&& len < 3
                &&& forall|j: int| r.0 <= j < indices@.len() ==> (#[trigger] indices@[j]) < vertex_count
            },
        },
{
    let len = indices.len();
    let mut n: usize = 0;
    while n < len
        invariant
            len == indices@.len(),
            drawable_prefix(indices@, vertex_count as int, n as int),
        decreases len - n,
    {
        let mut k: usize = n;
        while k < len && k - n < 3
            invariant
                len == indices@.len(),
                drawable_prefix(indices@, vertex_count as int, n as int),
                n <= k <= len,
                k - n <= 3,
                forall|j: int| n <= j < k ==> (#[trigger] indices@[j]) < vertex_count,
            decreases len - k,
        {
            if indices[k] as usize >= vertex_count {
                return (n, Some(IndexFault::OutOfRange(indices[k])));
            }
            k += 1;
        }
        if k - n < 3 {
            return (n, Some(IndexFault::Incomplete(len - n)));
        }
        n = k;
    }
    (n, None)
}

/// The `i`-th side of a triangle outline, from vertex `i` to the next one (the
/// last side back to the first vertex), when both its ends are known.
pub open spec fn outline_side(verts: [Option<Ivec2>; 3], i: int) -> Seq<(Ivec2, Ivec2)> {
    let a = verts@[i];
    let b = verts@[(i + 1) % 3];
    if a is Some && b is Some {
        seq![(a->0, b->0)]
    } else {
        seq![]
    }
}

/// The sides of a triangle outline whose two ends are both known, in order.
pub open spec fn outline_spec(verts: [Option<Ivec2>; 3]) -> Seq<(Ivec2, Ivec2)> {
    outline_side(verts, 0) + outline_side(verts, 1) + outline_side(verts, 2)
}

/// Whether `seg` joins vertex `i` of the triangle to the next vertex (vertex 2 to
/// vertex 0), both of them known.
pub open spec fn joins_neighbours(verts: [Option<Ivec2>; 3], i: int, seg: (Ivec2, Ivec2)) -> bool {
    &&& verts@[i] == Some(seg.0)
    &&& verts@[(i + 1) % 3] == Some(seg.1)
}

/// The wireframe of a triangle holds each side whose two ends are known, that is
/// from vertex 0 to 1, from 1 to 2 and from 2 back to 0, whichever other vertex
/// is missing, and nothing else: at most three segments.
pub proof fn lemma_outline_sides(verts: [Option<Ivec2>; 3])
    ensures
        verts@[0] is Some && verts@[1] is Some ==> outline_spec(verts).contains(
            (verts@[0]->0, verts@[1]->0),
        ),
        verts@[1] is Some && verts@[2] is Some ==> outline_spec(verts).contains(
            (verts@[1]->0, verts@[2]->0),
        ),
        verts@[2] is Some && verts@[0] is Some ==> outline_spec(verts).contains(
            (verts@[2]->0, verts@[0]->0),
        ),
        forall|k: int|
            0 <= k < outline_spec(verts).len() ==> {
                let seg = #[trigger] outline_spec(verts)[k];
                ||| joins_neighbours(verts, 0, seg)
                ||| joins_neighbours(verts, 1, seg)
                ||| joins_neighbours(verts, 2, seg)
            },
        outline_spec(verts).len() <= 3,
{
    let out = outline_spec(verts);
    let s0 = outline_side(verts, 0);
    let s1 = outline_side(verts, 1);
    let s2 = outline_side(verts, 2);
    assert(out == s0 + s1 + s2);
    if verts@[0] is Some && verts@[1] is Some {
        assert(out[0] == (verts@[0]->0, verts@[1]->0));
    }
    if verts@[1] is Some && verts@[2] is Some {
        assert(out[s0.len() as int] == (verts@[1]->0, verts@[2]->0));
    }
    if verts@[2] is Some && verts@[0] is Some {
        assert(out[(s0.len() + s1.len()) as int] == (verts@[2]->0, verts@[0]->0));
    }
    assert forall|k: int| 0 <= k < out.len() implies {
        let seg = #[trigger] out[k];
        ||| joins_neighbours(verts, 0, seg)
        ||| joins_neighbours(verts, 1, seg)
        ||| joins_neighbours(verts, 2, seg)
    } by {
        if k < s0.len() {
            assert(joins_neighbours(verts, 0, out[k]));
        } else if k < s0.len() + s1.len() {
            assert(out[k] == s1[k - s0.len()]);
            assert(joins_neighbours(verts, 1, out[k]));
        } else {
            assert(out[k] == s2[k - s0.len() - s1.len()]);
            assert(joins_neighbours(verts, 2, out[k]));
        }
    }
}

/// The line segments of a triangle's wireframe: a line is drawn between each
/// vertex and the next, and between the last and the first, wherever both ends
/// are known (a vertex behind the camera is not).
pub fn outline_segments(verts: [Option<Ivec2>; 3]) -> (r: Vec<(Ivec2, Ivec2)>)
    ensures
        r@ == outline_spec(verts),
{
    // ensure that a line will be drawn between the last and the first vertex
    let closed = [verts[0], verts[1], verts[2], verts[0]];
    let mut out: Vec<(Ivec2, Ivec2)> = Vec::new();
    let mut i: usize = 0;
    while i < 3
        invariant
            i <= 3,
            closed@ == seq![verts@[0], verts@[1], verts@[2], verts@[0]],
            out@ == (if i == 0 {
                seq![]
            } else if i == 1 {
                outline_side(verts, 0)
            } else if i == 2 {
                outline_side(verts, 0) + outline_side(verts, 1)
            } else {
                outline_spec(verts)
            }),
        decreases 3 - i,
    {
        let ghost before = out@;
        match (closed[i], closed[i + 1]) {
            (Some(v1), Some(v2)) => {
                out.push((v1, v2));
            },
            _ => {},
        }
        assert(closed@[i as int] == verts@[i as int]);
        assert(closed@[i + 1] == verts@[(i + 1) % 3]);
        assert(out@ =~= before + outline_side(verts, i as int));
        i += 1;
    }
    out
}

} // verus!
