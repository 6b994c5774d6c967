//! The hazard index: which hazards lie near the wearer, how near, and in
//! which direction.

use vstd::prelude::*;
use crate::geometry::{
    Direction, Point, Vector, distance, is_isqrt, lemma_isqrt_exists, root, sq_dist, squared_distance,
};
use crate::overpass::{Element, locations};

verus! {

/// Hazards with a point within this distance are analysed (0.001 degree).
pub const DETECTION_RADIUS: u64 = 10_000;

/// Hazards nearer than this are of high severity (0.0003 degree).
pub const HIGH_BELOW: u64 = 3_000;

/// Hazards nearer than this, and not high, are of medium severity (0.0006 degree).
pub const MEDIUM_BELOW: u64 = 6_000;

#[derive(Clone, Copy, Debug, PartialEq, Eq, Structural)]
pub enum HazardSeverity {
    Low,
    Medium,
    High,
}

/// What the analysis says of one nearby hazard: its index among the
/// analyser's elements, the distance to its nearest point, the severity, and
/// the vector toward that point.
#[derive(Clone, Copy, Debug, PartialEq, Eq, Structural)]
pub struct HazardReport {
    pub hazard: usize,
    pub distance: u64,
    pub severity: HazardSeverity,
    pub vector: Vector,
}

/// The severity tier of a hazard at a distance.
pub open spec fn severity_for(distance: int) -> HazardSeverity {
    if distance < HIGH_BELOW {
        HazardSeverity::High
    } else if distance < MEDIUM_BELOW {
        HazardSeverity::Medium
    } else {
        HazardSeverity::Low
    }
}

pub fn severity(distance: u64) -> (r: HazardSeverity)
    ensures
        r == severity_for(distance as int),
{
    if distance < HIGH_BELOW {
        HazardSeverity::High
    } else if distance < MEDIUM_BELOW {
        HazardSeverity::Medium
    } else {
        HazardSeverity::Low
    }
}

/// Rounding a distance down keeps its tier: the rounded-down root of the
/// squared distance `n` is below a threshold exactly when `n` is below the
/// threshold's square, as the exact distance is.
pub proof fn lemma_tier_exact(n: int)
    requires
        0 <= n,
    ensures
        root(n) < HIGH_BELOW <==> n < HIGH_BELOW * HIGH_BELOW,
        root(n) < MEDIUM_BELOW <==> n < MEDIUM_BELOW * MEDIUM_BELOW,
{
    lemma_isqrt_exists(n);
    lemma_root_below(n, root(n), HIGH_BELOW as int);
    lemma_root_below(n, root(n), MEDIUM_BELOW as int);
}

proof fn lemma_root_below(n: int, r: int, t: int)
    requires
        is_isqrt(n, r),
        0 <= t,
    ensures
        r < t <==> n < t * t,
{
    if r < t {
        assert((r + 1) * (r + 1) <= t * t) by (nonlinear_arith)
            requires
                0 <= r < t,
        ;
    } else {
        assert(t * t <= r * r) by (nonlinear_arith)
            requires
                0 <= t <= r,
        ;
    }
}

/// Some point of the element lies within `radius` of `at`.
pub open spec fn near(e: Element, at: Point, radius: int) -> bool {
    exists|j: int|
        0 <= j < locations(e).len() && sq_dist(#[trigger] locations(e)[j], at) <= radius * radius
}

/// The indices, in order, of the elements that lie within `radius` of `at`.
pub open spec fn nearby(elems: Seq<Element>, at: Point, radius: int) -> Seq<usize>
    decreases elems.len(),
{
    if elems.len() == 0 {
        Seq::<usize>::empty()
    } else {
        let init = nearby(elems.drop_last(), at, radius);
        if near(elems.last(), at, radius) {
            init.push((elems.len() - 1) as usize)
        } else {
            init
        }
    }
}

/// `j` indexes the nearest of the points to `at`, the first of them on a tie.
pub open spec fn is_nearest(pts: Seq<Point>, at: Point, j: int) -> bool {
    &&& 0 <= j < pts.len()
    &&& forall|k: int| 0 <= k < pts.len() ==> sq_dist(pts[j], at) <= sq_dist(#[trigger] pts[k], at)
    &&& forall|k: int| 0 <= k < j ==> sq_dist(#[trigger] pts[k], at) > sq_dist(pts[j], at)
}

/// The index of the nearest of the points to `at`, the first on a tie.
pub open spec fn nearest_vertex(pts: Seq<Point>, at: Point) -> int {
    choose|j: int| is_nearest(pts, at, j)
}

pub proof fn lemma_nearest_unique(pts: Seq<Point>, at: Point, i: int, j: int)
    requires
        is_nearest(pts, at, i),
        is_nearest(pts, at, j),
    ensures
        i == j,
{
    if i < j {
        assert(sq_dist(pts[i], at) > sq_dist(pts[j], at));
    } else if j < i {
        assert(sq_dist(pts[j], at) > sq_dist(pts[i], at));
    }
}

/// The report on element `i` for a wearer at `at`.
pub open spec fn report_of(elems: Seq<Element>, at: Point, i: usize) -> HazardReport {
    let pts = locations(elems[i as int]);
    let p = pts[nearest_vertex(pts, at)];
    let d = root(sq_dist(p, at));
    HazardReport {
        hazard: i,
        distance: d as u64,
        severity: severity_for(d),
        vector: Vector {
            rotation: Direction { x: (p.lon - at.lon) as i64, y: (p.lat - at.lat) as i64 },
            length: d as u64,
        },
    }
}

/// The analysis: no answer where nothing lies within the detection radius,
/// else a report on each element that does, in order.
pub open spec fn analysis(elems: Seq<Element>, at: Point) -> Option<Seq<HazardReport>> {
    let found = nearby(elems, at, DETECTION_RADIUS as int);
    if found.len() == 0 {
        None
    } else {
        Some(found.map_values(|i: usize| report_of(elems, at, i)))
    }
}

/// The reports that a result of `analyze` holds.
pub open spec fn reports_of(r: Option<Vec<HazardReport>>) -> Option<Seq<HazardReport>> {
    match r {
        Some(v) => Some(v@),
        None => None,
    }
}

/// The wearer's position and the hazards around it.
pub struct HazardAnalyzer {
    lat: i32,
    lon: i32,
    elements: Vec<Element>,
}

impl HazardAnalyzer {
    pub closed spec fn location(&self) -> Point {
        Point { lat: self.lat, lon: self.lon }
    }

    pub closed spec fn elements(&self) -> Seq<Element> {
        self.elements@
    }

    pub fn new(lat: i32, lon: i32, elements: Vec<Element>) -> (r: Self)
        ensures
            r.location() == (Point { lat, lon }),
            r.elements() == elements@,
    {
        Self { lat, lon, elements }
    }

    pub fn update_location(&mut self, point: Point)
        ensures
            final(self).location() == point,
            final(self).elements() == old(self).elements(),
    {
        self.lat = point.lat;
        self.lon = point.lon;
    }

    pub fn update_elements(&mut self, elements: Vec<Element>)
        ensures
            final(self).location() == old(self).location(),
            final(self).elements() == elements@,
    {
        self.elements = elements;
    }

    /// The hazards held.
    pub fn elements_ref(&self) -> (r: &Vec<Element>)
        ensures
            r@ == self.elements(),
    {
        &self.elements
    }

    /// The indices, in order, of the hazards with a point within `radius`
    /// of the wearer.
    pub fn nearby_hazards(&self, radius: u64) -> (r: Vec<usize>)
        ensures
            r@ == nearby(self.elements(), self.location(), radius as int),
    {
        let at = Point { lat: self.lat, lon: self.lon };
        assert(radius * radius <= u128::MAX) by (nonlinear_arith)
            requires
                radius <= u64::MAX,
        ;
        let limit: u128 = radius as u128 * radius as u128;
        let mut out: Vec<usize> = Vec::new();
        let mut i: usize = 0;
        while i < self.elements.len()
            invariant
                i <= self.elements@.len(),
                at == self.location(),
                limit == radius * radius,
                out@ == nearby(self.elements@.take(i as int), at, radius as int),
            decreases self.elements.len() - i,
        {
            assert(self.elements@.take(i + 1).drop_last() =~= self.elements@.take(i as int));
            let e = &self.elements[i];
            let n = e.point_count();
            let mut found = false;
            let mut j: usize = 0;
            while j < n && !found
                invariant
                    j <= n == locations(*e).len(),
                    limit == radius * radius,
                    found ==> near(*e, at, radius as int),
                    !found ==> forall|k: int|
                        0 <= k < j ==> sq_dist(#[trigger] locations(*e)[k], at) > radius * radius,
                decreases n - j,
            {
                let p = e.point_at(j);
                if squared_distance(&p, &at) <= limit {
                    assert(sq_dist(locations(*e)[j as int], at) <= radius * radius);
                    found = true;
                }
                j = j + 1;
            }
            if found {
                out.push(i);
            }
            i = i + 1;
        }
        assert(self.elements@.take(self.elements@.len() as int) =~= self.elements@);
        out
    }

    /// The report on one hazard: the nearest of its points, the distance to
    /// it, the severity and the vector toward it.
    fn report(&self, i: usize) -> (r: HazardReport)
        requires
            i < self.elements@.len(),
            locations(self.elements@[i as int]).len() > 0,
        ensures
            r == report_of(self.elements(), self.location(), i),
    {
        let at = Point { lat: self.lat, lon: self.lon };
        let e = &self.elements[i];
        let n = e.point_count();
        let ghost pts = locations(*e);
        let mut best: usize = 0;
        let mut best_sq: u128 = squared_distance(&e.point_at(0), &at);
        let mut j: usize = 1;
        while j < n
            invariant
                1 <= j <= n == pts.len(),
                pts == locations(*e),
                best < j,
                best_sq == sq_dist(pts[best as int], at),
                forall|k: int| 0 <= k < j ==> sq_dist(pts[best as int], at) <= sq_dist(#[trigger] pts[k], at),
                forall|k: int| 0 <= k < best ==> sq_dist(#[trigger] pts[k], at) > sq_dist(pts[best as int], at),
            decreases n - j,
        {
            let d = squared_distance(&e.point_at(j), &at);
            if d < best_sq {
                best = j;
                best_sq = d;
            }
            j = j + 1;
        }
        proof {
            lemma_nearest_unique(pts, at, best as int, nearest_vertex(pts, at));
        }
        let p = e.point_at(best);
        let d = distance(&p, &at);
        HazardReport {
            hazard: i,
            distance: d,
            severity: severity(d),
            vector: Vector {
                rotation: Direction { x: p.lon as i64 - at.lon as i64, y: p.lat as i64 - at.lat as i64 },
                length: d,
            },
        }
    }

    /// The reports on every hazard within the detection radius, in the order
    /// of the elements; `None` where there is none.
    pub fn analyze(&self) -> (r: Option<Vec<HazardReport>>)
        ensures
            reports_of(r) == analysis(self.elements(), self.location()),
    {
        let found = self.nearby_hazards(DETECTION_RADIUS);
        if found.len() == 0 {
            return None;
        }
        let ghost at = self.location();
        let ghost elems = self.elements();
        let count = self.elements.len();
        assert(elems.len() == count);
        proof {
            lemma_nearby_facts(elems, at, DETECTION_RADIUS as int);
        }
        let mut reports: Vec<HazardReport> = Vec::new();
        let mut k: usize = 0;
        while k < found.len()
            invariant
                k <= found@.len(),
                found@ == nearby(elems, at, DETECTION_RADIUS as int),
                elems == self.elements(),
                at == self.location(),
                forall|m: int|
                    0 <= m < found@.len() ==> (#[trigger] found@[m]) < elems.len() && near(
                        elems[found@[m] as int],
                        at,
                        DETECTION_RADIUS as int,
                    ),
                reports@ == found@.take(k as int).map_values(|i: usize| report_of(elems, at, i)),
            decreases found.len() - k,
        {
            let i = found[k];
            let r = self.report(i);
            reports.push(r);
            k = k + 1;
            assert(reports@ =~= found@.take(k as int).map_values(|i: usize| report_of(elems, at, i)));
        }
        assert(found@.take(found@.len() as int) =~= found@);
        Some(reports)
    }
}

/// Analysing twice with no update in between gives identical reports: any
/// two results that `analyze` may return on the same analyser are equal.
pub proof fn lemma_analyze_idempotent(
    a: HazardAnalyzer,
    first: Option<Vec<HazardReport>>,
    second: Option<Vec<HazardReport>>,
)
    requires
        reports_of(first) == analysis(a.elements(), a.location()),
        reports_of(second) == analysis(a.elements(), a.location()),
    ensures
        reports_of(first) == reports_of(second),
{
}

/// Every index that `nearby` gives is in range and names a near element.
pub proof fn lemma_nearby_facts(elems: Seq<Element>, at: Point, radius: int)
    requires
        elems.len() <= usize::MAX,
    ensures
        forall|m: int|
            0 <= m < nearby(elems, at, radius).len() ==> (#[trigger] nearby(elems, at, radius)[m])
                < elems.len() && near(elems[nearby(elems, at, radius)[m] as int], at, radius),
    decreases elems.len(),
{
    if elems.len() > 0 {
        let init = elems.drop_last();
        let prev = nearby(init, at, radius);
        let all = nearby(elems, at, radius);
        lemma_nearby_facts(init, at, radius);
        assert forall|m: int| 0 <= m < all.len() implies (#[trigger] all[m]) < elems.len() && near(
            elems[all[m] as int],
            at,
            radius,
        ) by {
            if m < prev.len() {
                assert(all[m] == prev[m]);
                assert(prev[m] < init.len() && near(init[prev[m] as int], at, radius));
                assert(elems[prev[m] as int] == init[prev[m] as int]);
            } else {
                assert(all[m] == elems.len() - 1);
            }
        }
    }
}

} // verus!
