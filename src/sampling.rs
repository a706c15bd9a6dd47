use vstd::prelude::*;

use crate::error::MeshError;

verus! {

/// How strongly an interval asks to be split, as order keys.
///
/// `curvature` is the key of the slope discrepancy across the interval,
/// `span` the key of its width along the domain.
#[derive(Debug, Clone, Copy, PartialEq, Eq, Structural)]
pub struct Score {
    pub curvature: u32,
    pub span: u32,
}

/// `a` ranks strictly above `b`: more curvature, or as much and a wider span.
pub open spec fn outranks(a: Score, b: Score) -> bool {
    a.curvature > b.curvature || (a.curvature == b.curvature && a.span > b.span)
}

/// `r` is the first position of `scores` that no other position outranks.
pub open spec fn is_selected(scores: Seq<Score>, r: int) -> bool {
    &&& 0 <= r < scores.len()
    &&& forall|k: int| 0 <= k < scores.len() ==> !outranks(#[trigger] scores[k], scores[r])
    &&& forall|k: int| 0 <= k < r ==> outranks(scores[r], #[trigger] scores[k])
}

/// Picks the interval to split next: the highest-ranking one, the first of
/// them where several rank equally.
pub fn select_interval(scores: &Vec<Score>) -> (r: usize)
    requires
        scores@.len() >= 1,
    ensures
        is_selected(scores@, r as int),
{
    let mut best: usize = 0;
    let mut j: usize = 1;
    while j < scores.len()
        invariant
            1 <= j <= scores@.len(),
            best < j,
            forall|k: int| 0 <= k < j ==> !outranks(#[trigger] scores@[k], scores@[best as int]),
            forall|k: int| 0 <= k < best ==> outranks(scores@[best as int], #[trigger] scores@[k]),
        decreases scores@.len() - j,
    {
        if outranks_exec(&scores[j], &scores[best]) {
            best = j;
        }
        j = j + 1;
    }
    best
}

fn outranks_exec(a: &Score, b: &Score) -> (r: bool)
    ensures
        r == outranks(*a, *b),
{
    a.curvature > b.curvature || (a.curvature == b.curvature && a.span > b.span)
}


/// Order key of the real zero.
///
/// The order key of an `f32` value is its bit pattern with the sign bit set
/// when the value is zero or positive, and with every bit flipped when it is
/// negative; both zeros get this key and NaN gets key 0. Keys then compare as
/// the values do, and NaN ranks below everything, so it is never chosen while
/// a real score is on offer.
pub const ZERO_KEY: u32 = 0x8000_0000;

/// The fewest points a ring may be sampled with.
pub const MIN_VERTICES: usize = 3;

/// What the caller's bisection reports for one interval.
pub struct Probe<P> {
    /// The sample at the interval's midpoint.
    pub point: P,
    /// How strongly the interval asks to be split.
    pub score: Score,
    /// Order key of the function's value at the midpoint.
    pub height: u32,
}

/// The scores of a sequence of probes, in the same order.
pub open spec fn scores_of<P>(probes: Seq<Probe<P>>) -> Seq<Score> {
    probes.map_values(|p: Probe<P>| p.score)
}

/// The error, if any, that a sampling request is refused with.
pub open spec fn domain_error(x_start: u32, x_end: u32, vertex_count: usize) -> Option<MeshError> {
    if !(x_start < x_end) {
        Some(MeshError::InvalidRange)
    } else if vertex_count < MIN_VERTICES {
        Some(MeshError::InvalidParameter)
    } else {
        None
    }
}

/// A boundary sample lies on the mirror axis when the function is zero there.
pub open spec fn on_axis(height: u32) -> bool {
    height == ZERO_KEY
}

/// Lowest position of the upper half that the lower half mirrors: the start
/// sample is left out when it lies on the axis, where its mirror image
/// would duplicate it.
pub open spec fn mirror_low(start_height: u32) -> int {
    if on_axis(start_height) { 1 } else { 0 }
}

/// One past the highest position of the upper half that the lower half
/// mirrors: the end sample is left out when it lies on the axis.
pub open spec fn mirror_high(n: int, end_height: u32) -> int {
    if on_axis(end_height) { n - 1 } else { n }
}

/// How many boundary samples the lower half leaves out: those on the axis.
pub open spec fn trimmed(start_height: u32, end_height: u32) -> nat {
    (if on_axis(start_height) { 1nat } else { 0nat }) + (if on_axis(end_height) { 1nat } else { 0nat })
}

/// The larger of two keys.
pub open spec fn max_key(a: u32, b: u32) -> u32 {
    if b > a { b } else { a }
}

/// `probes` are what `bisect` reported for the intervals of `ring`, in order.
pub open spec fn bisects<P, B: Fn(&P, &P) -> Probe<P>>(bisect: &B, ring: Seq<P>, probes: Seq<Probe<P>>) -> bool {
    &&& probes.len() + 1 == ring.len()
    &&& forall|j: int| 0 <= j < probes.len() ==> bisect.ensures((&ring[j], &ring[j + 1]), #[trigger] probes[j])
}

/// One round of refinement on `(ring, peak)` with `probes` gives
/// `(after, after_peak)`: the midpoint of the first top-ranked interval is
/// inserted between its two samples, and the peak takes its height if that
/// is larger.
pub open spec fn refined<P>(ring: Seq<P>, peak: u32, probes: Seq<Probe<P>>, after: Seq<P>, after_peak: u32) -> bool {
    exists|j: int|
        #![trigger probes[j]]
        is_selected(scores_of(probes), j) && after == ring.insert(j + 1, probes[j].point)
            && after_peak == max_key(peak, probes[j].height)
}

/// A full round: bisect every interval of `before`, then refine with the result.
pub open spec fn round<P, B: Fn(&P, &P) -> Probe<P>>(bisect: &B, before: (Seq<P>, u32), after: (Seq<P>, u32)) -> bool {
    exists|probes: Seq<Probe<P>>|
        #[trigger] bisects(bisect, before.0, probes) && refined(before.0, before.1, probes, after.0, after.1)
}

/// `history` lists the ring and its peak before every round and after the
/// last: it starts from the two boundary samples and peak zero, and each
/// entry is one round from the one before.
pub open spec fn refinement_history<P, B: Fn(&P, &P) -> Probe<P>>(
    bisect: &B,
    first: P,
    last: P,
    rounds: nat,
    history: Seq<(Seq<P>, u32)>,
) -> bool {
    &&& history.len() == rounds + 1
    &&& history[0] == (seq![first, last], ZERO_KEY)
    &&& forall|r: int| 0 <= r < rounds ==> #[trigger] round(bisect, history[r], history[r + 1])
}

/// `ring` is `upper` closed by its mirror image: `upper` itself, then the
/// reflections of its samples in reverse order, leaving out a boundary sample
/// that lies on the axis.
pub open spec fn closed_ring<P, R: Fn(&P) -> P>(
    reflect: &R,
    upper: Seq<P>,
    start_height: u32,
    end_height: u32,
    ring: Seq<P>,
) -> bool {
    let n = upper.len() as int;
    &&& ring.len() == 2 * n - trimmed(start_height, end_height)
    &&& ring.subrange(0, n) == upper
    &&& forall|t: int|
        0 <= t < ring.len() - n ==> reflect.ensures((&upper[mirror_high(n, end_height) - 1 - t],), #[trigger] ring[n + t])
}

/// What `sample_ring` returns on success, given the boundary samples `s` and
/// `t` that `seed` produced and the refinement history: the last ring of the
/// history (closed by its mirror image when `mirror` holds) and its peak.
pub open spec fn sampled_from<P, S: Fn(bool) -> (P, u32), B: Fn(&P, &P) -> Probe<P>, R: Fn(&P) -> P>(
    seed: &S,
    bisect: &B,
    reflect: &R,
    vertex_count: nat,
    mirror: bool,
    s: (P, u32),
    t: (P, u32),
    history: Seq<(Seq<P>, u32)>,
    points: Seq<P>,
    peak: u32,
) -> bool {
    &&& seed.ensures((false,), s)
    &&& seed.ensures((true,), t)
    &&& refinement_history(bisect, s.0, t.0, (vertex_count - 2) as nat, history)
    &&& peak == history.last().1
    &&& if mirror {
        closed_ring(reflect, history.last().0, s.1, t.1, points)
    } else {
        points == history.last().0
    }
}

/// `points` and `peak` are a result of sampling with these closures.
pub open spec fn sampled<P, S: Fn(bool) -> (P, u32), B: Fn(&P, &P) -> Probe<P>, R: Fn(&P) -> P>(
    seed: &S,
    bisect: &B,
    reflect: &R,
    vertex_count: nat,
    mirror: bool,
    points: Seq<P>,
    peak: u32,
) -> bool {
    exists|s: (P, u32), t: (P, u32), history: Seq<(Seq<P>, u32)>|
        #[trigger] sampled_from(seed, bisect, reflect, vertex_count, mirror, s, t, history, points, peak)
}

/// Checks a sampling request before any sampling is done.
pub fn check_domain(x_start: u32, x_end: u32, vertex_count: usize) -> (r: Result<(), MeshError>)
    ensures
        r is Ok <==> domain_error(x_start, x_end, vertex_count) is None,
        r matches Err(e) ==> domain_error(x_start, x_end, vertex_count) == Some(e),
{
    if !(x_start < x_end) {
        Err(MeshError::InvalidRange)
    } else if vertex_count < MIN_VERTICES {
        Err(MeshError::InvalidParameter)
    } else {
        Ok(())
    }
}

/// A ring of samples of one function, in order along its domain, while it is
/// being refined towards its vertex budget.
pub struct SampleRing<P> {
    points: Vec<P>,
    budget: usize,
    peak: u32,
    start_height: u32,
    end_height: u32,
}

impl<P> View for SampleRing<P> {
    type V = Seq<P>;

    closed spec fn view(&self) -> Seq<P> {
        self.points@
    }
}

impl<P> SampleRing<P> {
    /// Number of points at which refinement stops.
    pub closed spec fn spec_budget(&self) -> nat {
        self.budget as nat
    }

    /// Key of the largest value met at an inserted midpoint, zero at least.
    pub closed spec fn spec_peak(&self) -> u32 {
        self.peak
    }

    /// Key of the function's value at the start of the domain.
    pub closed spec fn spec_start_height(&self) -> u32 {
        self.start_height
    }

    /// Key of the function's value at the end of the domain.
    pub closed spec fn spec_end_height(&self) -> u32 {
        self.end_height
    }

    /// At least the two boundary samples, and no more than the budget.
    pub closed spec fn wf(&self) -> bool {
        &&& MIN_VERTICES <= self.budget
        &&& 2 <= self.points@.len() <= self.budget
    }

    /// Seeds a ring with the samples at the two ends of the domain.
    pub fn new(
        start: P,
        end: P,
        start_height: u32,
        end_height: u32,
        vertex_count: usize,
    ) -> (r: SampleRing<P>)
        requires
            vertex_count >= MIN_VERTICES,
        ensures
            r.wf(),
            r@ == seq![start, end],
            r.spec_budget() == vertex_count,
            r.spec_peak() == ZERO_KEY,
            r.spec_start_height() == start_height,
            r.spec_end_height() == end_height,
    {
        let mut points: Vec<P> = Vec::with_capacity(vertex_count);
        points.push(start);
        points.push(end);
        SampleRing { points, budget: vertex_count, peak: ZERO_KEY, start_height, end_height }
    }

    pub fn points(&self) -> (r: &Vec<P>)
        ensures
            r@ == self@,
    {
        &self.points
    }

    pub fn peak(&self) -> (r: u32)
        ensures
            r == self.spec_peak(),
    {
        self.peak
    }

    /// Whether the ring still holds fewer points than its budget.
    pub fn needs_refinement(&self) -> (r: bool)
        ensures
            r == (self@.len() < self.spec_budget()),
    {
        self.points.len() < self.budget
    }

    /// Bisects every interval between neighbouring samples, in order.
    pub fn probes<B>(&self, bisect: &B) -> (r: Vec<Probe<P>>)
        where B: Fn(&P, &P) -> Probe<P>,
        requires
            self.wf(),
            forall|a: &P, b: &P| bisect.requires((a, b)),
        ensures
            bisects(bisect, self@, r@),
    {
        let mut out: Vec<Probe<P>> = Vec::new();
        let mut j: usize = 1;
        while j < self.points.len()
            invariant
                self.wf(),
                1 <= j <= self@.len(),
                out@.len() + 1 == j,
                forall|a: &P, b: &P| bisect.requires((a, b)),
                forall|k: int|
                    0 <= k < out@.len() ==> bisect.ensures((&self@[k], &self@[k + 1]), #[trigger] out@[k]),
            decreases self@.len() - j,
        {
            let p = bisect(&self.points[j - 1], &self.points[j]);
            out.push(p);
            j = j + 1;
        }
        out
    }

    /// One round of refinement: splits the interval whose probe ranks first,
    /// inserting its midpoint between the two samples, and keeps the peak.
    pub fn refine(&mut self, probes: Vec<Probe<P>>)
        requires
            old(self).wf(),
            old(self)@.len() < old(self).spec_budget(),
            probes@.len() + 1 == old(self)@.len(),
        ensures
            final(self).wf(),
            refined(old(self)@, old(self).spec_peak(), probes@, final(self)@, final(self).spec_peak()),
            final(self).spec_budget() == old(self).spec_budget(),
            final(self).spec_start_height() == old(self).spec_start_height(),
            final(self).spec_end_height() == old(self).spec_end_height(),
    {
        let ghost before = probes@;
        let mut scores: Vec<Score> = Vec::with_capacity(probes.len());
        let mut k: usize = 0;
        while k < probes.len()
            invariant
                k <= probes@.len(),
                scores@ == scores_of(probes@).subrange(0, k as int),
            decreases probes@.len() - k,
        {
            scores.push(probes[k].score);
            k = k + 1;
        }
        assert(scores@ == scores_of(probes@));
        let j = select_interval(&scores);
        let mut probes = probes;
        let chosen = probes.remove(j);
        assert(chosen == before[j as int]);
        if chosen.height > self.peak {
            self.peak = chosen.height;
        }
        self.points.insert(j + 1, chosen.point);
        assert(is_selected(scores_of(before), j as int));
    }

    /// The samples as they stand, without a lower half.
    pub fn into_points(self) -> (r: Vec<P>)
        ensures
            r@ == self@,
    {
        self.points
    }

    /// Closes the ring with its mirror image: the upper half as it stands,
    /// followed by the reflections of its samples in reverse order. A
    /// boundary sample on the mirror axis is not reflected, so the closed
    /// ring holds no duplicate vertex at the seam.
    pub fn close<R>(self, reflect: &R) -> (r: Vec<P>)
        where R: Fn(&P) -> P,
        requires
            self.wf(),
            forall|a: &P| reflect.requires((a,)),
        ensures
            closed_ring(reflect, self@, self.spec_start_height(), self.spec_end_height(), r@),
    {
        let n = self.points.len();
        let low: usize = if self.start_height == ZERO_KEY { 1 } else { 0 };
        let high: usize = if self.end_height == ZERO_KEY { n - 1 } else { n };
        let ghost upper = self@;
        let mut points = self.points;
        let mut k: usize = high;
        while k > low
            invariant
                low <= k <= high <= n,
                n == upper.len(),
                high == mirror_high(n as int, self.end_height),
                points@.len() == n + (high - k),
                points@.subrange(0, n as int) == upper,
                forall|a: &P| reflect.requires((a,)),
                forall|t: int|
                    0 <= t < points@.len() - n ==> reflect.ensures(
                        (&upper[high - 1 - t],),
                        #[trigger] points@[n + t],
                    ),
            decreases k,
        {
            k = k - 1;
            let q = reflect(&points[k]);
            points.push(q);
            assert(points@.subrange(0, n as int) =~= upper);
        }
        points
    }
}

/// Samples a function into a ring of `vertex_count` points, closed by its
/// mirror image when `mirror` holds, and returns it with the key of the
/// largest value met at an inserted midpoint (zero at least).
///
/// `x_start` and `x_end` are the keys of the domain's ends. `seed(false)` and
/// `seed(true)` sample the start and the end of the domain, with the keys of
/// the function's values there; `bisect` samples the midpoint of two
/// neighbouring samples and scores their interval; `reflect` mirrors a sample.
/// The refinement is greedy: each round rescans every interval and splits the
/// one that ranks first, so a ring of `n` points costs `O(n^2)` bisections.
pub fn sample_ring<P, S, B, R>(
    x_start: u32,
    x_end: u32,
    vertex_count: usize,
    mirror: bool,
    seed: &S,
    bisect: &B,
    reflect: &R,
) -> (r: Result<(Vec<P>, u32), MeshError>)
    where S: Fn(bool) -> (P, u32), B: Fn(&P, &P) -> Probe<P>, R: Fn(&P) -> P,
    requires
        forall|e: bool| seed.requires((e,)),
        forall|a: &P, b: &P| bisect.requires((a, b)),
        forall|a: &P| reflect.requires((a,)),
    ensures
        r is Ok <==> domain_error(x_start, x_end, vertex_count) is None,
        r matches Err(e) ==> domain_error(x_start, x_end, vertex_count) == Some(e),
        r matches Ok((points, peak)) ==> {
            &&& sampled(seed, bisect, reflect, vertex_count as nat, mirror, points@, peak)
            &&& !mirror ==> points@.len() == vertex_count
            &&& exists|s: (P, u32), t: (P, u32)|
                #![trigger seed.ensures((false,), s), seed.ensures((true,), t)]
                seed.ensures((false,), s) && seed.ensures((true,), t)
                && points@[0] == s.0 && points@[vertex_count - 1] == t.0
                && (mirror ==> points@.len() == 2 * vertex_count - trimmed(s.1, t.1))
        },
{
    match check_domain(x_start, x_end, vertex_count) {
        Err(e) => { return Err(e); },
        Ok(()) => {},
    }
    let (first, start_height) = seed(false);
    let (last, end_height) = seed(true);
    let ghost s = (first, start_height);
    let ghost t = (last, end_height);
    let mut ring = SampleRing::new(first, last, start_height, end_height, vertex_count);
    let ghost mut history: Seq<(Seq<P>, u32)> = seq![(ring@, ring.spec_peak())];
    while ring.needs_refinement()
        invariant
            ring.wf(),
            refinement_history(bisect, s.0, t.0, (ring@.len() - 2) as nat, history),
            history.last() == (ring@, ring.spec_peak()),
            ring.spec_budget() == vertex_count,
            ring@[0] == s.0,
            ring@[ring@.len() - 1] == t.0,
            ring.spec_start_height() == s.1,
            ring.spec_end_height() == t.1,
            forall|a: &P, b: &P| bisect.requires((a, b)),
        decreases vertex_count - ring@.len(),
    {
        let probes = ring.probes(bisect);
        let ghost before = (ring@, ring.spec_peak());
        let ghost ps = probes@;
        ring.refine(probes);
        proof {
            let old_history = history;
            history = history.push((ring@, ring.spec_peak()));
            assert(round(bisect, before, (ring@, ring.spec_peak()))) by {
                assert(bisects(bisect, before.0, ps));
            }
            assert forall|r: int| 0 <= r < (ring@.len() - 2) as nat implies #[trigger] round(bisect, history[r], history[r + 1]) by {
                if r + 1 < old_history.len() {
                    assert(history[r] == old_history[r]);
                    assert(history[r + 1] == old_history[r + 1]);
                }
            }
        }
    }
    let peak = ring.peak();
    let ghost upper = ring@;
    let points = if mirror { ring.close(reflect) } else { ring.into_points() };
    assert(sampled_from(seed, bisect, reflect, vertex_count as nat, mirror, s, t, history, points@, peak));
    Ok((points, peak))
}

/// The choice of the interval to split is determined by the scores alone:
/// two positions that both meet the selection rule are the same position.
pub proof fn lemma_selection_unique(scores: Seq<Score>, r1: int, r2: int)
    requires
        is_selected(scores, r1),
        is_selected(scores, r2),
    ensures
        r1 == r2,
{
    if r1 < r2 {
        assert(outranks(scores[r2], scores[r1]));
        assert(!outranks(scores[r2], scores[r1]));
    } else if r2 < r1 {
        assert(outranks(scores[r1], scores[r2]));
        assert(!outranks(scores[r1], scores[r2]));
    }
}

/// A refinement round adds exactly one point and leaves the others in place:
/// removing the inserted midpoint gives back the ring as it was, and every
/// earlier point keeps its neighbours.
pub proof fn lemma_refinement_keeps_points<P>(ring: Seq<P>, j: int, midpoint: P)
    requires
        0 <= j < ring.len() - 1,
    ensures
        ring.insert(j + 1, midpoint).len() == ring.len() + 1,
        ring.insert(j + 1, midpoint).remove(j + 1) == ring,
        forall|k: int| 0 <= k <= j ==> ring.insert(j + 1, midpoint)[k] == ring[k],
        forall|k: int| j < k < ring.len() ==> ring.insert(j + 1, midpoint)[k + 1] == ring[k],
{
    assert(ring.insert(j + 1, midpoint).remove(j + 1) =~= ring);
}

/// A ring of `n` samples closed by its mirror image has `2 n - k` points,
/// where `k`, at most two, counts the boundary samples on the mirror axis:
/// a boundary sample where the function is zero is not mirrored.
pub proof fn lemma_mirrored_length(n: int, start_height: u32, end_height: u32)
    requires
        n >= 2,
    ensures
        trimmed(start_height, end_height) <= 2,
        trimmed(start_height, end_height) == 0 <==> !on_axis(start_height) && !on_axis(end_height),
        trimmed(start_height, end_height) == 2 <==> on_axis(start_height) && on_axis(end_height),
        n + (mirror_high(n, end_height) - mirror_low(start_height)) == 2 * n - trimmed(start_height, end_height),
{
}

/// `seed` gives one result per argument, as a pure function does.
pub open spec fn seed_is_pure<P, S: Fn(bool) -> (P, u32)>(seed: &S) -> bool {
    forall|e: bool, a: (P, u32), b: (P, u32)|
        #[trigger] seed.ensures((e,), a) && #[trigger] seed.ensures((e,), b) ==> a == b
}

/// `bisect` gives one result per pair of samples, as a pure function does.
pub open spec fn bisect_is_pure<P, B: Fn(&P, &P) -> Probe<P>>(bisect: &B) -> bool {
    forall|x: P, y: P, a: Probe<P>, b: Probe<P>|
        #[trigger] bisect.ensures((&x, &y), a) && #[trigger] bisect.ensures((&x, &y), b) ==> a == b
}

/// `reflect` gives one result per sample, as a pure function does.
pub open spec fn reflect_is_pure<P, R: Fn(&P) -> P>(reflect: &R) -> bool {
    forall|x: P, a: P, b: P| #[trigger] reflect.ensures((&x,), a) && #[trigger] reflect.ensures((&x,), b) ==> a == b
}

proof fn lemma_rounds_agree<P, B: Fn(&P, &P) -> Probe<P>>(
    bisect: &B,
    before: (Seq<P>, u32),
    after1: (Seq<P>, u32),
    after2: (Seq<P>, u32),
)
    requires
        bisect_is_pure(bisect),
        round(bisect, before, after1),
        round(bisect, before, after2),
    ensures
        after1 == after2,
{
    let p1 = choose|p: Seq<Probe<P>>| #[trigger] bisects(bisect, before.0, p) && refined(before.0, before.1, p, after1.0, after1.1);
    let p2 = choose|p: Seq<Probe<P>>| #[trigger] bisects(bisect, before.0, p) && refined(before.0, before.1, p, after2.0, after2.1);
    assert forall|j: int| 0 <= j < p1.len() implies p1[j] == p2[j] by {
        assert(bisect.ensures((&before.0[j], &before.0[j + 1]), p1[j]));
        assert(bisect.ensures((&before.0[j], &before.0[j + 1]), p2[j]));
    }
    assert(p1 =~= p2);
    let j1 = choose|j: int|
        #![trigger p1[j]]
        is_selected(scores_of(p1), j) && after1.0 == before.0.insert(j + 1, p1[j].point)
            && after1.1 == max_key(before.1, p1[j].height);
    let j2 = choose|j: int|
        #![trigger p2[j]]
        is_selected(scores_of(p2), j) && after2.0 == before.0.insert(j + 1, p2[j].point)
            && after2.1 == max_key(before.1, p2[j].height);
    lemma_selection_unique(scores_of(p1), j1, j2);
}

proof fn lemma_histories_agree<P, B: Fn(&P, &P) -> Probe<P>>(
    bisect: &B,
    first: P,
    last: P,
    rounds: nat,
    h1: Seq<(Seq<P>, u32)>,
    h2: Seq<(Seq<P>, u32)>,
    r: int,
)
    requires
        bisect_is_pure(bisect),
        refinement_history(bisect, first, last, rounds, h1),
        refinement_history(bisect, first, last, rounds, h2),
        0 <= r <= rounds,
    ensures
        h1[r] == h2[r],
    decreases r,
{
    if r > 0 {
        lemma_histories_agree(bisect, first, last, rounds, h1, h2, r - 1);
        let q = r - 1;
        assert(round(bisect, h1[q], h1[q + 1]));
        assert(round(bisect, h2[q], h2[q + 1]));
        lemma_rounds_agree(bisect, h1[q], h1[q + 1], h2[q + 1]);
    }
}

/// Sampling is deterministic: with pure closures, two results of sampling
/// the same function the same way hold the same points and the same peak.
pub proof fn lemma_sampling_deterministic<P, S: Fn(bool) -> (P, u32), B: Fn(&P, &P) -> Probe<P>, R: Fn(&P) -> P>(
    seed: &S,
    bisect: &B,
    reflect: &R,
    vertex_count: nat,
    mirror: bool,
    points1: Seq<P>,
    peak1: u32,
    points2: Seq<P>,
    peak2: u32,
)
    requires
        vertex_count >= MIN_VERTICES,
        seed_is_pure(seed),
        bisect_is_pure(bisect),
        reflect_is_pure(reflect),
        sampled(seed, bisect, reflect, vertex_count, mirror, points1, peak1),
        sampled(seed, bisect, reflect, vertex_count, mirror, points2, peak2),
    ensures
        points1 == points2,
        peak1 == peak2,
{
    let (s1, t1, h1) = choose|s: (P, u32), t: (P, u32), h: Seq<(Seq<P>, u32)>|
        #[trigger] sampled_from(seed, bisect, reflect, vertex_count, mirror, s, t, h, points1, peak1);
    let (s2, t2, h2) = choose|s: (P, u32), t: (P, u32), h: Seq<(Seq<P>, u32)>|
        #[trigger] sampled_from(seed, bisect, reflect, vertex_count, mirror, s, t, h, points2, peak2);
    assert(s1 == s2);
    assert(t1 == t2);
    let rounds = (vertex_count - 2) as nat;
    lemma_histories_agree(bisect, s1.0, t1.0, rounds, h1, h2, rounds as int);
    let upper = h1.last().0;
    if mirror {
        let n = upper.len() as int;
        assert forall|k: int| 0 <= k < points1.len() implies points1[k] == points2[k] by {
            if k < n {
                assert(points1[k] == points1.subrange(0, n)[k]);
                assert(points2[k] == points2.subrange(0, n)[k]);
            } else {
                assert(reflect.ensures((&upper[mirror_high(n, t1.1) - 1 - (k - n)],), points1[n + (k - n)]));
                assert(reflect.ensures((&upper[mirror_high(n, t1.1) - 1 - (k - n)],), points2[n + (k - n)]));
            }
        }
        assert(points1 =~= points2);
    }
}

} // verus!
