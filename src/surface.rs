use vstd::prelude::*;

use crate::error::MeshError;
use crate::sampling::domain_error;

verus! {

/// The fewest points a ring must have to be stitched into a surface.
pub const MIN_RING: usize = 3;

/// Number of vertices of a surface of `layers` rings of `n` points: the rings
/// and the two poles.
pub open spec fn vertex_total(n: int, layers: int) -> int {
    n * layers + 2
}

/// Index of point `k` of ring `layer`; index 0 is the bottom pole.
pub open spec fn ring_vertex(n: int, layer: int, k: int) -> int {
    1 + layer * n + k
}

/// Index of the top pole.
pub open spec fn top_pole(n: int, layers: int) -> int {
    n * layers + 1
}

/// The point after `k` on a ring of `n` points; the last wraps to the first.
pub open spec fn next(n: int, k: int) -> int {
    (k + 1) % n
}

/// Triangle of the bottom fan on ring segment `i`, from the bottom pole.
pub open spec fn bottom_fan(n: int, i: int) -> (int, int, int) {
    (ring_vertex(n, 0, next(n, i)), ring_vertex(n, 0, i), 0)
}

/// Triangle of the top fan on ring segment `i`, to the top pole.
pub open spec fn top_fan(n: int, layers: int, i: int) -> (int, int, int) {
    (ring_vertex(n, layers - 1, i), ring_vertex(n, layers - 1, next(n, i)), top_pole(n, layers))
}

/// First triangle of the wall quad on ring segment `i` between rings
/// `seg - 1` and `seg`: bottom right, top right, top left.
pub open spec fn wall_first(n: int, seg: int, i: int) -> (int, int, int) {
    (ring_vertex(n, seg - 1, next(n, i)), ring_vertex(n, seg, next(n, i)), ring_vertex(n, seg, i))
}

/// Second triangle of the same quad: bottom left, bottom right, top left.
pub open spec fn wall_second(n: int, seg: int, i: int) -> (int, int, int) {
    (ring_vertex(n, seg - 1, i), ring_vertex(n, seg - 1, next(n, i)), ring_vertex(n, seg, i))
}

/// Where the wall triangles of quad `(seg, i)` start in the triangle order:
/// after the bottom fan, quad by quad from the lowest pair of rings up.
pub open spec fn wall_slot(n: int, seg: int, i: int) -> int {
    n + 2 * ((seg - 1) * n + i)
}

/// Where the top fan starts in the triangle order: after the walls, or
/// first of all on a single-layer surface, which has neither bottom fan nor
/// walls.
pub open spec fn top_start(n: int, layers: int) -> int {
    if layers > 1 { wall_slot(n, layers, 0) } else { 0 }
}

/// Where the top fan triangle on ring segment `i` stands in the triangle order.
pub open spec fn top_slot(n: int, layers: int, i: int) -> int {
    top_start(n, layers) + i
}

/// Number of triangles of the surface.
pub open spec fn triangle_count(n: int, layers: int) -> int {
    top_start(n, layers) + n
}

/// Triangle number `t` of an index buffer.
pub open spec fn triangle_at(s: Seq<u32>, t: int) -> (int, int, int) {
    (s[3 * t] as int, s[3 * t + 1] as int, s[3 * t + 2] as int)
}

/// The index buffer of a surface, in three groups: the bottom fan, one
/// triangle per ring segment (layered surfaces only); the side walls, two
/// triangles per ring segment and pair of neighbouring rings; the top fan,
/// one triangle per ring segment.
pub open spec fn surface_layout(n: int, layers: int, s: Seq<u32>) -> bool {
    &&& s.len() == 3 * triangle_count(n, layers)
    &&& layers > 1 ==> forall|i: int| 0 <= i < n ==> triangle_at(s, i) == #[trigger] bottom_fan(n, i)
    &&& forall|seg: int, i: int|
        1 <= seg < layers && 0 <= i < n ==> {
            &&& triangle_at(s, #[trigger] wall_slot(n, seg, i)) == wall_first(n, seg, i)
            &&& triangle_at(s, wall_slot(n, seg, i) + 1) == wall_second(n, seg, i)
        }
    &&& forall|i: int| 0 <= i < n ==> triangle_at(s, top_slot(n, layers, i)) == #[trigger] top_fan(n, layers, i)
}

/// The error, if any, that a surface request is refused with.
pub open spec fn surface_error(n: int, layers: int) -> Option<MeshError> {
    if n < MIN_RING || layers < 1 {
        Some(MeshError::InvalidParameter)
    } else {
        None
    }
}

proof fn lemma_extend(s: Seq<u32>, e: Seq<u32>)
    ensures
        forall|t: int| 0 <= t && 3 * t + 3 <= s.len() ==> #[trigger] triangle_at(s + e, t) == triangle_at(s, t),
{
}

proof fn lemma_next(n: int, i: int)
    requires
        0 <= i < n,
    ensures
        next(n, i) == if i + 1 == n { 0 } else { i + 1 },
{
    if i + 1 == n {
        vstd::arithmetic::div_mod::lemma_mod_self_0(n);
    } else {
        vstd::arithmetic::div_mod::lemma_small_mod((i + 1) as nat, n as nat);
    }
}

fn push_triangle(out: &mut Vec<u32>, a: usize, b: usize, c: usize, Ghost(bound): Ghost<int>)
    requires
        a < bound,
        b < bound,
        c < bound,
        bound <= u32::MAX + 1,
    ensures
        final(out)@ == old(out)@ + seq![a as u32, b as u32, c as u32],
        forall|t: int|
            3 * t == old(out)@.len() ==> #[trigger] triangle_at(final(out)@, t) == (a as int, b as int, c as int),
{
    out.push(a as u32);
    out.push(b as u32);
    out.push(c as u32);
}

/// Builds the triangle-list index buffer of a surface of `layers` rings of
/// `n` points each, with the vertex order of `ring_vertex`: bottom pole,
/// rings from the bottom up, top pole. The groups come in the order of
/// `surface_layout`: bottom cap, side walls, top cap. The winding is
/// consistent: where two triangles meet along an edge they walk it in
/// opposite directions (`lemma_walls_closed`).
pub fn surface_indices(n: usize, layers: usize) -> (r: Result<Vec<u32>, MeshError>)
    requires
        vertex_total(n as int, layers as int) <= u32::MAX + 1,
    ensures
        r is Ok <==> surface_error(n as int, layers as int) is None,
        r matches Err(e) ==> surface_error(n as int, layers as int) == Some(e),
        r matches Ok(s) ==> {
            &&& surface_layout(n as int, layers as int, s@)
            &&& s@.len() % 3 == 0
            &&& forall|k: int| 0 <= k < s@.len() ==> (#[trigger] s@[k]) < vertex_total(n as int, layers as int)
        },
{
    if n < MIN_RING || layers < 1 {
        return Err(MeshError::InvalidParameter);
    }
    let ghost ni = n as int;
    let ghost li = layers as int;
    let ghost total = vertex_total(ni, li);
    assert(0 <= (li - 1) * ni && (li - 1) * ni + ni == ni * li) by (nonlinear_arith)
        requires li >= 1, ni >= 0;
    let mut out: Vec<u32> = Vec::new();

    // Bottom cap.
    if layers > 1 {
        let mut i: usize = 0;
        while i < n
            invariant
                ni == n,
                li == layers,
                n >= MIN_RING,
                total == vertex_total(ni, li),
                total <= u32::MAX + 1,
                0 <= (li - 1) * ni,
                (li - 1) * ni + ni == ni * li,
                i <= n,
                out@.len() == 3 * i,
                forall|k: int| 0 <= k < out@.len() ==> (#[trigger] out@[k]) < total,
                forall|j: int| 0 <= j < i ==> triangle_at(out@, j) == #[trigger] bottom_fan(ni, j),
            decreases n - i,
        {
            let after: usize = if i + 1 == n { 0 } else { i + 1 };
            proof { lemma_next(ni, i as int); }
            let ghost before = out@;
            push_triangle(&mut out, after + 1, i + 1, 0, Ghost(total));
            proof { lemma_extend(before, out@.subrange(before.len() as int, out@.len() as int)); }
            assert(out@ == before + out@.subrange(before.len() as int, out@.len() as int));
            assert forall|j: int| 0 <= j <= i implies triangle_at(out@, j) == #[trigger] bottom_fan(ni, j) by {
                if j < i {
                    assert(triangle_at(before, j) == bottom_fan(ni, j));
                }
            }
            i = i + 1;
        }
    }

    // Side walls.
    let mut seg: usize = 1;
    let mut lower: usize = 1;
    while seg < layers
        invariant
            ni == n,
            li == layers,
            n >= MIN_RING,
            layers >= 1,
            total == vertex_total(ni, li),
            total <= u32::MAX + 1,
            0 <= (li - 1) * ni,
            (li - 1) * ni + ni == ni * li,
            1 <= seg <= layers,
            lower == ring_vertex(ni, seg - 1, 0),
            li > 1 ==> out@.len() == 3 * wall_slot(ni, seg as int, 0),
            li == 1 ==> out@.len() == 0,
            forall|k: int| 0 <= k < out@.len() ==> (#[trigger] out@[k]) < total,
            li > 1 ==> forall|j: int| 0 <= j < n ==> triangle_at(out@, j) == #[trigger] bottom_fan(ni, j),
            forall|sg: int, j: int|
                1 <= sg < seg && 0 <= j < n ==> {
                    &&& triangle_at(out@, #[trigger] wall_slot(ni, sg, j)) == wall_first(ni, sg, j)
                    &&& triangle_at(out@, wall_slot(ni, sg, j) + 1) == wall_second(ni, sg, j)
                },
        decreases layers - seg,
    {
        let ghost sgi = seg as int;
        assert((sgi - 1) * ni + ni == sgi * ni && sgi * ni + ni <= li * ni) by (nonlinear_arith)
            requires sgi + 1 <= li, ni >= 0;
        let upper: usize = lower + n;
        let ghost start = out@;
        let mut i: usize = 0;
        while i < n
            invariant
                ni == n,
                li == layers,
                n >= MIN_RING,
                total == vertex_total(ni, li),
                total <= u32::MAX + 1,
                1 <= sgi < li,
                sgi == seg,
                lower == ring_vertex(ni, sgi - 1, 0),
                upper == ring_vertex(ni, sgi, 0),
                upper == lower + ni,
                upper + ni <= total,
                i <= n,
                start.len() == 3 * wall_slot(ni, sgi, 0),
                out@.len() == 3 * wall_slot(ni, sgi, i as int),
                out@.subrange(0, start.len() as int) == start,
                forall|k: int| 0 <= k < out@.len() ==> (#[trigger] out@[k]) < total,
                forall|j: int|
                    0 <= j < i ==> {
                        &&& triangle_at(out@, #[trigger] wall_slot(ni, sgi, j)) == wall_first(ni, sgi, j)
                        &&& triangle_at(out@, wall_slot(ni, sgi, j) + 1) == wall_second(ni, sgi, j)
                    },
            decreases n - i,
        {
            let after: usize = if i + 1 == n { 0 } else { i + 1 };
            proof { lemma_next(ni, i as int); }
            let ghost before = out@;
            push_triangle(&mut out, lower + after, upper + after, upper + i, Ghost(total));
            push_triangle(&mut out, lower + i, lower + after, upper + i, Ghost(total));
            let ghost w = wall_slot(ni, sgi, i as int);
            let ghost added = out@.subrange(before.len() as int, out@.len() as int);
            proof { lemma_extend(before, added); }
            assert(out@ == before + added);
            assert(3 * w == before.len());
            assert forall|j: int|
                0 <= j <= i implies {
                    &&& triangle_at(out@, #[trigger] wall_slot(ni, sgi, j)) == wall_first(ni, sgi, j)
                    &&& triangle_at(out@, wall_slot(ni, sgi, j) + 1) == wall_second(ni, sgi, j)
                } by {
                if j < i {
                    assert(triangle_at(before, wall_slot(ni, sgi, j)) == wall_first(ni, sgi, j));
                }
            }
            assert(out@.subrange(0, start.len() as int) =~= start) by {
                assert(out@.subrange(0, start.len() as int) =~= before.subrange(0, start.len() as int));
            }
            i = i + 1;
        }
        assert(wall_slot(ni, sgi, ni) == wall_slot(ni, sgi + 1, 0));
        let ghost tail = out@.subrange(start.len() as int, out@.len() as int);
        assert(out@ == start + tail);
        proof { lemma_extend(start, tail); }
        assert forall|j: int| 0 <= j < n implies triangle_at(out@, j) == #[trigger] bottom_fan(ni, j) by {
            assert(triangle_at(start, j) == bottom_fan(ni, j));
        }
        assert forall|sg: int, j: int|
            1 <= sg < seg + 1 && 0 <= j < n implies {
                &&& triangle_at(out@, #[trigger] wall_slot(ni, sg, j)) == wall_first(ni, sg, j)
                &&& triangle_at(out@, wall_slot(ni, sg, j) + 1) == wall_second(ni, sg, j)
            } by {
            if sg < seg {
                assert(wall_slot(ni, sg, j) + 2 <= wall_slot(ni, sgi, 0)) by (nonlinear_arith)
                    requires sg + 1 <= sgi, 0 <= j < ni;
                assert(triangle_at(start, wall_slot(ni, sg, j)) == wall_first(ni, sg, j));
            }
        }
        lower = upper;
        seg = seg + 1;
    }

    // Top cap.
    let top_base: usize = (layers - 1) * n + 1;
    let pole: usize = n * layers + 1;
    let ghost walls = out@;
    assert(walls.len() == 3 * top_start(ni, li));
    let mut i: usize = 0;
    while i < n
        invariant
            ni == n,
            li == layers,
            n >= MIN_RING,
            layers >= 1,
            total == vertex_total(ni, li),
            total <= u32::MAX + 1,
            top_base == ring_vertex(ni, li - 1, 0),
            pole == top_pole(ni, li),
            (li - 1) * ni + ni == ni * li,
            i <= n,
            walls.len() == 3 * top_start(ni, li),
            out@.len() == 3 * top_slot(ni, li, i as int),
            out@.subrange(0, walls.len() as int) == walls,
            forall|k: int| 0 <= k < out@.len() ==> (#[trigger] out@[k]) < total,
            li > 1 ==> forall|j: int| 0 <= j < n ==> triangle_at(walls, j) == #[trigger] bottom_fan(ni, j),
            forall|sg: int, j: int|
                1 <= sg < li && 0 <= j < n ==> {
                    &&& triangle_at(walls, #[trigger] wall_slot(ni, sg, j)) == wall_first(ni, sg, j)
                    &&& triangle_at(walls, wall_slot(ni, sg, j) + 1) == wall_second(ni, sg, j)
                },
            forall|j: int| 0 <= j < i ==> triangle_at(out@, top_slot(ni, li, j)) == #[trigger] top_fan(ni, li, j),
        decreases n - i,
    {
        let after: usize = if i + 1 == n { 0 } else { i + 1 };
        proof { lemma_next(ni, i as int); }
        let ghost before = out@;
        push_triangle(&mut out, top_base + i, top_base + after, pole, Ghost(total));
        proof { lemma_extend(before, out@.subrange(before.len() as int, out@.len() as int)); }
        assert(out@ == before + out@.subrange(before.len() as int, out@.len() as int));
        assert forall|j: int| 0 <= j <= i implies triangle_at(out@, top_slot(ni, li, j)) == #[trigger] top_fan(ni, li, j) by {
            if j < i {
                assert(triangle_at(before, top_slot(ni, li, j)) == top_fan(ni, li, j));
            }
        }
        assert(out@.subrange(0, walls.len() as int) =~= walls) by {
            assert(out@.subrange(0, walls.len() as int) =~= before.subrange(0, walls.len() as int));
        }
        i = i + 1;
    }
    let ghost tail = out@.subrange(walls.len() as int, out@.len() as int);
    assert(out@ == walls + tail);
    proof { lemma_extend(walls, tail); }
    assert(li > 1 ==> forall|j: int| 0 <= j < n ==> triangle_at(out@, j) == #[trigger] bottom_fan(ni, j)) by {
        if li > 1 {
            assert forall|j: int| 0 <= j < n implies triangle_at(out@, j) == #[trigger] bottom_fan(ni, j) by {
                assert(triangle_at(walls, j) == bottom_fan(ni, j));
                assert(j < wall_slot(ni, 1, 0));
            }
        }
    }
    assert forall|sg: int, j: int|
        1 <= sg < li && 0 <= j < n implies {
            &&& triangle_at(out@, #[trigger] wall_slot(ni, sg, j)) == wall_first(ni, sg, j)
            &&& triangle_at(out@, wall_slot(ni, sg, j) + 1) == wall_second(ni, sg, j)
        } by {
        assert(wall_slot(ni, sg, j) + 2 <= wall_slot(ni, li, 0)) by (nonlinear_arith)
            requires sg + 1 <= li, 0 <= j < ni;
        assert(triangle_at(walls, wall_slot(ni, sg, j)) == wall_first(ni, sg, j));
    }
    Ok(out)
}

/// Lays out the vertex buffer of a surface of `layers` rings of `n` points
/// in the order that `surface_indices` addresses: `bottom` at index 0, then
/// `place(layer, k)` for every point `k` of every ring from the bottom up, at
/// `ring_vertex(n, layer, k)`, and `top` last.
pub fn surface_vertices<V, F>(n: usize, layers: usize, bottom: V, top: V, place: &F) -> (r: Vec<V>)
    where F: Fn(usize, usize) -> V,
    requires
        vertex_total(n as int, layers as int) <= u32::MAX + 1,
        forall|layer: usize, k: usize| place.requires((layer, k)),
    ensures
        r@.len() == vertex_total(n as int, layers as int),
        r@[0] == bottom,
        r@[top_pole(n as int, layers as int)] == top,
        forall|layer: usize, k: usize|
            layer < layers && k < n ==> place.ensures((layer, k), #[trigger] r@[ring_vertex(n as int, layer as int, k as int)]),
{
    let ghost ni = n as int;
    let mut out: Vec<V> = Vec::new();
    out.push(bottom);
    let mut layer: usize = 0;
    while layer < layers
        invariant
            ni == n,
            layer <= layers,
            out@.len() == 1 + layer * ni,
            out@[0] == bottom,
            forall|layer: usize, k: usize| place.requires((layer, k)),
            forall|a: usize, b: usize|
                a < layer && b < n ==> place.ensures((a, b), #[trigger] out@[ring_vertex(ni, a as int, b as int)]),
        decreases layers - layer,
    {
        let ghost start = out@;
        let mut k: usize = 0;
        while k < n
            invariant
                ni == n,
                layer < layers,
                k <= n,
                start.len() == 1 + layer * ni,
                out@.len() == start.len() + k,
                out@.subrange(0, start.len() as int) == start,
                forall|layer: usize, k: usize| place.requires((layer, k)),
                forall|b: usize| b < k ==> place.ensures((layer, b), #[trigger] out@[ring_vertex(ni, layer as int, b as int)]),
            decreases n - k,
        {
            let v = place(layer, k);
            let ghost before = out@;
            out.push(v);
            assert(out@.subrange(0, start.len() as int) =~= start) by {
                assert(out@.subrange(0, start.len() as int) =~= before.subrange(0, start.len() as int));
            }
            assert forall|b: usize| b < k + 1 implies place.ensures((layer, b), #[trigger] out@[ring_vertex(ni, layer as int, b as int)]) by {
                if b < k {
                    assert(out@[ring_vertex(ni, layer as int, b as int)] == before[ring_vertex(ni, layer as int, b as int)]);
                }
            }
            k = k + 1;
        }
        assert((layer + 1) * ni == layer * ni + ni) by (nonlinear_arith);
        assert forall|a: usize, b: usize|
            a < layer + 1 && b < n implies place.ensures((a, b), #[trigger] out@[ring_vertex(ni, a as int, b as int)]) by {
            if a < layer {
                assert(a * ni + ni <= layer * ni) by (nonlinear_arith)
                    requires a + 1 <= layer, ni >= 0;
                assert(out@[ring_vertex(ni, a as int, b as int)] == out@.subrange(0, start.len() as int)[ring_vertex(ni, a as int, b as int)]);
            }
        }
        assert(out@[0] == out@.subrange(0, start.len() as int)[0]);
        layer = layer + 1;
    }
    let ghost rings = out@;
    out.push(top);
    assert(layers * ni == ni * layers) by (nonlinear_arith);
    assert forall|a: usize, b: usize|
        a < layers && b < n implies place.ensures((a, b), #[trigger] out@[ring_vertex(ni, a as int, b as int)]) by {
        assert(a * ni + ni <= layers * ni) by (nonlinear_arith)
            requires a + 1 <= layers, ni >= 0;
        assert(out@[ring_vertex(ni, a as int, b as int)] == rings[ring_vertex(ni, a as int, b as int)]);
    }
    out
}

/// How many rings a surface stacks, from the height profile: one when its
/// domain is collapsed to a point (a flat surface), otherwise one per height
/// sample but the last, which gives the top pole its place.
pub open spec fn layers_of(height_vertices: int, height_start: u32, height_end: u32) -> Result<int, MeshError> {
    if height_start == height_end {
        Ok(1)
    } else {
        match domain_error(height_start, height_end, height_vertices as usize) {
            Some(e) => Err(e),
            None => Ok(height_vertices - 1),
        }
    }
}

/// Number of rings of a surface whose height profile runs from the value
/// keyed `height_start` to the one keyed `height_end` with `height_vertices`
/// samples.
pub fn layer_count(height_vertices: usize, height_start: u32, height_end: u32) -> (r: Result<usize, MeshError>)
    ensures
        r matches Ok(l) ==> layers_of(height_vertices as int, height_start, height_end) == Ok::<int, MeshError>(l as int),
        r matches Err(e) ==> layers_of(height_vertices as int, height_start, height_end) == Err::<int, MeshError>(e),
{
    if height_start == height_end {
        return Ok(1);
    }
    match crate::sampling::check_domain(height_start, height_end, height_vertices) {
        Err(e) => Err(e),
        Ok(()) => Ok(height_vertices - 1),
    }
}

/// Number of vertices of a surface of `layers` rings of `n` points, when
/// every one of them can be addressed by a `u32` index.
pub fn surface_vertex_count(n: usize, layers: usize) -> (r: Option<u64>)
    ensures
        r matches Some(v) ==> v == vertex_total(n as int, layers as int),
        r is Some <==> vertex_total(n as int, layers as int) <= u32::MAX + 1,
{
    let limit: usize = u32::MAX as usize;
    if layers == 0 {
        return Some(2);
    }
    if n > (limit - 1) / layers {
        assert(n * layers > limit - 1) by (nonlinear_arith)
            requires n > (limit - 1) / layers as int, layers > 0;
        return None;
    }
    assert(n * layers <= limit - 1) by (nonlinear_arith)
        requires n <= (limit - 1) / layers as int, layers > 0;
    Some(n as u64 * layers as u64 + 2)
}

/// Whether point `k` of a closed ring lies on its mirrored (lower) half,
/// whose outward normals point the other way. The ring lists its upper half
/// first, `upper` points long, then the reflections.
pub fn on_lower_half(upper: usize, k: usize) -> (r: bool)
    ensures
        r == (k >= upper),
{
    k >= upper
}

/// The side walls close around every ring: the right edge of each wall quad
/// is the left edge of the next one, walked the other way (upwards in the
/// quad's first triangle, downwards in the next quad's second triangle), and
/// the last quad of a ring closes onto the ring's first point instead of
/// running past it. The fans meet the walls the same way: the bottom fan
/// walks each edge of the lowest ring against the lowest walls, the top fan
/// each edge of the highest ring against the highest walls. Every corner is
/// a vertex of the surface.
pub proof fn lemma_walls_closed(n: int, layers: int, seg: int, i: int)
    requires
        n >= MIN_RING,
        1 <= seg < layers,
        0 <= i < n,
    ensures
        wall_first(n, seg, i).0 == wall_second(n, seg, next(n, i)).0,
        wall_first(n, seg, i).1 == wall_second(n, seg, next(n, i)).2,
        wall_first(n, seg, i).0 != wall_first(n, seg, i).1,
        i == n - 1 ==> wall_first(n, seg, i).0 == ring_vertex(n, seg - 1, 0)
            && wall_first(n, seg, i).1 == ring_vertex(n, seg, 0),
        0 <= wall_first(n, seg, i).0 < vertex_total(n, layers),
        0 <= wall_first(n, seg, i).1 < vertex_total(n, layers),
        0 <= wall_first(n, seg, i).2 < vertex_total(n, layers),
        0 <= wall_second(n, seg, i).0 < vertex_total(n, layers),
        seg == 1 ==> bottom_fan(n, i).0 == wall_second(n, seg, i).1 && bottom_fan(n, i).1 == wall_second(n, seg, i).0,
        seg == layers - 1 ==> top_fan(n, layers, i).0 == wall_first(n, seg, i).2
            && top_fan(n, layers, i).1 == wall_first(n, seg, i).1,
{
    lemma_next(n, i);
    let k = next(n, i);
    lemma_next(n, k);
    assert(0 <= (seg - 1) * n && (seg - 1) * n + n == seg * n && seg * n + n <= n * layers) by (nonlinear_arith)
        requires 1 <= seg, seg + 1 <= layers, n >= 0;
}

/// Triangle `t` has both `a` and `b` among its corners.
pub open spec fn has_edge(t: (int, int, int), a: int, b: int) -> bool {
    &&& (t.0 == a || t.1 == a || t.2 == a)
    &&& (t.0 == b || t.1 == b || t.2 == b)
}

/// The ring segment before point `c`: the one whose next point is `c`.
pub open spec fn previous(n: int, c: int) -> int {
    if c == 0 { n - 1 } else { c - 1 }
}

proof fn lemma_ring_vertex_injective(n: int, layers: int)
    requires
        n >= 1,
        layers >= 1,
    ensures
        forall|l1: int, k1: int, l2: int, k2: int|
            0 <= l1 < layers && 0 <= k1 < n && 0 <= l2 < layers && 0 <= k2 < n
                && #[trigger] ring_vertex(n, l1, k1) == #[trigger] ring_vertex(n, l2, k2)
                ==> l1 == l2 && k1 == k2,
        forall|l1: int, k1: int|
            0 <= l1 < layers && 0 <= k1 < n ==> 0 < #[trigger] ring_vertex(n, l1, k1) < top_pole(n, layers),
{
    assert forall|l1: int, k1: int, l2: int, k2: int|
        0 <= l1 < layers && 0 <= k1 < n && 0 <= l2 < layers && 0 <= k2 < n
            && #[trigger] ring_vertex(n, l1, k1) == #[trigger] ring_vertex(n, l2, k2)
            implies l1 == l2 && k1 == k2 by {
        if l1 < l2 {
            assert(l1 * n + n <= l2 * n) by (nonlinear_arith)
                requires l1 + 1 <= l2, n >= 0;
        } else if l2 < l1 {
            assert(l2 * n + n <= l1 * n) by (nonlinear_arith)
                requires l2 + 1 <= l1, n >= 0;
        }
    }
    assert forall|l1: int, k1: int|
        0 <= l1 < layers && 0 <= k1 < n implies 0 < #[trigger] ring_vertex(n, l1, k1) < top_pole(n, layers) by {
        assert(0 <= l1 * n && l1 * n + n <= n * layers) by (nonlinear_arith)
            requires 0 <= l1, l1 + 1 <= layers, n >= 0;
    }
}

/// Every vertical edge of the side walls, from point `c` of ring `seg - 1`
/// to point `c` of ring `seg`, lies in exactly two triangles of the surface:
/// the first triangle of the quad before it and the second triangle of the
/// quad after it. No fan triangle and no other wall triangle touches both of
/// its ends, the edge at the seam (`c == 0`) included.
pub proof fn lemma_wall_edge_shared_by_two(n: int, layers: int, seg: int, c: int)
    requires
        n >= MIN_RING,
        1 <= seg < layers,
        0 <= c < n,
    ensures
        forall|sg: int, j: int|
            1 <= sg < layers && 0 <= j < n ==> (has_edge(
                #[trigger] wall_first(n, sg, j),
                ring_vertex(n, seg - 1, c),
                ring_vertex(n, seg, c),
            ) <==> sg == seg && j == previous(n, c)),
        forall|sg: int, j: int|
            1 <= sg < layers && 0 <= j < n ==> (has_edge(
                #[trigger] wall_second(n, sg, j),
                ring_vertex(n, seg - 1, c),
                ring_vertex(n, seg, c),
            ) <==> sg == seg && j == c),
        forall|j: int|
            0 <= j < n ==> !has_edge(#[trigger] bottom_fan(n, j), ring_vertex(n, seg - 1, c), ring_vertex(n, seg, c)),
        forall|j: int|
            0 <= j < n ==> !has_edge(
                #[trigger] top_fan(n, layers, j),
                ring_vertex(n, seg - 1, c),
                ring_vertex(n, seg, c),
            ),
{
    lemma_ring_vertex_injective(n, layers);
    let a = ring_vertex(n, seg - 1, c);
    let b = ring_vertex(n, seg, c);
    assert forall|sg: int, j: int| 1 <= sg < layers && 0 <= j < n implies (has_edge(
        #[trigger] wall_first(n, sg, j), a, b) <==> sg == seg && j == previous(n, c)) by {
        lemma_next(n, j);
        lemma_next(n, previous(n, c));
    }
    assert forall|sg: int, j: int| 1 <= sg < layers && 0 <= j < n implies (has_edge(
        #[trigger] wall_second(n, sg, j), a, b) <==> sg == seg && j == c) by {
        lemma_next(n, j);
    }
    assert forall|j: int| 0 <= j < n implies !has_edge(#[trigger] bottom_fan(n, j), a, b) by {
        lemma_next(n, j);
    }
    assert forall|j: int| 0 <= j < n implies !has_edge(#[trigger] top_fan(n, layers, j), a, b) by {
        lemma_next(n, j);
    }
}

} // verus!
