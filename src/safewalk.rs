//! The control loop's decisions: the wearer's heading from successive fixes,
//! the nearest hazard relative to that heading, the four motor intensities,
//! what to announce, and the loop's time budget.

use vstd::prelude::*;
use crate::geometry::{
    Direction, Point, Vector, displacement, is_isqrt, isqrt, lemma_i64_product, lemma_isqrt_exists, root,
    sq_dist, turned,
};
use crate::gps::{GNRMC, moved};
use crate::hazard_analyzer::{
    DETECTION_RADIUS, HazardAnalyzer, HazardReport, analysis, nearby, nearest_vertex, report_of,
};
use crate::motor::POWER_MAX;
use crate::overpass::{Element, has_tag, locations};

verus! {

/// Hazards at this distance or farther do not vibrate (0.0001 degree).
pub const MAX_DETECTION_DISTANCE: u64 = 1_000;

/// The largest direction component that the motor mapping takes.
pub const MAX_COMPONENT: i64 = 0x1_0000_0000_0000;

/// The four motor intensities, each in thousandths of full power.
#[derive(Clone, Copy, Debug, PartialEq, Eq, Structural)]
pub struct VibrationSystemSpeeds {
    pub front: u32,
    pub back: u32,
    pub left: u32,
    pub right: u32,
}

impl VibrationSystemSpeeds {
    /// The intensities clockwise from the front: front, right, back, left.
    pub fn vec(&self) -> (r: Vec<u32>)
        ensures
            r@ == seq![self.front, self.right, self.back, self.left],
    {
        let mut v: Vec<u32> = Vec::new();
        v.push(self.front);
        v.push(self.right);
        v.push(self.back);
        v.push(self.left);
        assert(v@ =~= seq![self.front, self.right, self.back, self.left]);
        v
    }
}

/// The share of full power that the axis of `a` gets from the direction
/// `(a, b)`: `POWER_MAX` times the cosine of the angle between them where it
/// is positive, rounded down; that is, the largest `c` with
/// `c * c * (a * a + b * b) <= (POWER_MAX * a) ^ 2`.
pub open spec fn share(a: int, b: int) -> int {
    if a <= 0 {
        0
    } else {
        root((POWER_MAX * POWER_MAX * a * a) / (a * a + b * b))
    }
}

/// How strongly a hazard at `length` is felt, out of `MAX_DETECTION_DISTANCE`.
pub open spec fn strength(length: int) -> int {
    if length >= MAX_DETECTION_DISTANCE {
        0
    } else {
        MAX_DETECTION_DISTANCE - length
    }
}

/// A share of full power, weakened by the distance.
pub open spec fn scaled(share: int, length: int) -> int {
    share * strength(length) / MAX_DETECTION_DISTANCE as int
}

/// A direction, with the zero displacement replaced by angle 0.
pub open spec fn turn_of(d: Direction) -> Direction {
    if d.x == 0 && d.y == 0 {
        Direction { x: 1, y: 0 }
    } else {
        d
    }
}

/// The motor intensities for a hazard vector relative to the wearer's
/// heading (angle 0 ahead, growing to the left): the front motor takes the
/// ahead share, the back motor the behind share, the left and right motors
/// the side shares, each weakened by the distance.
pub open spec fn speeds_for(v: Vector) -> VibrationSystemSpeeds {
    let d = turn_of(v.rotation);
    let l = v.length as int;
    VibrationSystemSpeeds {
        front: scaled(share(d.x as int, d.y as int), l) as u32,
        back: scaled(share(-d.x, d.y as int), l) as u32,
        left: scaled(share(d.y as int, d.x as int), l) as u32,
        right: scaled(share(-d.y, d.x as int), l) as u32,
    }
}

/// A share of full power never exceeds `POWER_MAX`.
pub proof fn lemma_share_bounds(a: int, b: int)
    ensures
        0 <= share(a, b) <= POWER_MAX,
{
    if a > 0 {
        let n = (POWER_MAX * POWER_MAX * a * a) / (a * a + b * b);
        assert(0 <= n <= 1_000_000) by (nonlinear_arith)
            requires
                n == (1000 * 1000 * a * a) / (a * a + b * b),
                a > 0,
        ;
        lemma_isqrt_exists(n);
        let r = root(n);
        assert(r <= 1000) by (nonlinear_arith)
            requires
                0 <= r,
                r * r <= n,
                n <= 1_000_000,
        ;
    }
}

/// A hazard straight ahead drives the front motor alone, at the full
/// strength for its distance, and no hazard at the same distance drives the
/// front motor harder.
pub proof fn lemma_front_strongest_ahead(v: Vector)
    ensures
        speeds_for(Vector { rotation: Direction { x: 1, y: 0 }, length: v.length })
            == (VibrationSystemSpeeds {
            front: scaled(POWER_MAX as int, v.length as int) as u32,
            back: 0,
            left: 0,
            right: 0,
        }),
        speeds_for(v).front <= speeds_for(
            Vector { rotation: Direction { x: 1, y: 0 }, length: v.length },
        ).front,
{
    let l = v.length as int;
    let st = strength(l);
    assert(0 <= st <= 1000);
    assert(is_isqrt(1_000_000, 1000));
    lemma_isqrt_exists(1_000_000);
    crate::geometry::lemma_isqrt_unique(1_000_000, 1000, root(1_000_000));
    assert(POWER_MAX == 1000);
    assert((1000 * 1000 * 1int * 1int) / (1int * 1int + 0int * 0int) == 1_000_000) by (nonlinear_arith);
    assert(share(1, 0) == 1000);
    assert(scaled(0, l) == 0) by (nonlinear_arith)
        requires
            scaled(0, l) == 0 * st / 1000,
    ;
    let d = turn_of(v.rotation);
    let f = share(d.x as int, d.y as int);
    lemma_share_bounds(d.x as int, d.y as int);
    assert(0 <= f * st / 1000 <= 1000 * st / 1000 <= 1000) by (nonlinear_arith)
        requires
            0 <= f <= 1000,
            0 <= st <= 1000,
    ;
}

/// The direction is small enough for the motor mapping.
pub open spec fn within_mapping(d: Direction) -> bool {
    -MAX_COMPONENT <= d.x <= MAX_COMPONENT && -MAX_COMPONENT <= d.y <= MAX_COMPONENT
}

fn axis_share(a: i64, b: i64) -> (r: u32)
    requires
        -MAX_COMPONENT <= a <= MAX_COMPONENT,
        -MAX_COMPONENT <= b <= MAX_COMPONENT,
    ensures
        r == share(a as int, b as int),
        r <= POWER_MAX,
{
    if a <= 0 {
        return 0;
    }
    proof {
        lemma_i64_product(a, a);
        lemma_i64_product(b, b);
    }
    assert(a * a >= 0 && b * b >= 0) by (nonlinear_arith);
    let a2: u128 = (a as i128 * a as i128) as u128;
    let b2: u128 = (b as i128 * b as i128) as u128;
    assert(a2 <= 0x1_0000_0000_0000_0000_0000_0000) by (nonlinear_arith)
        requires
            a2 == a * a,
            0 < a <= 0x1_0000_0000_0000,
    ;
    assert(b2 <= 0x1_0000_0000_0000_0000_0000_0000 && b2 >= 0) by (nonlinear_arith)
        requires
            b2 == b * b,
            -0x1_0000_0000_0000 <= b <= 0x1_0000_0000_0000,
    ;
    assert(a2 >= 1) by (nonlinear_arith)
        requires
            a2 == a * a,
            0 < a,
    ;
    let full: u128 = POWER_MAX as u128 * POWER_MAX as u128;
    let num: u128 = full * a2;
    let den: u128 = a2 + b2;
    assert(num / den <= full) by (nonlinear_arith)
        requires
            num == full * a2,
            den == a2 + b2,
            a2 >= 1,
            b2 >= 0,
            full >= 0,
    ;
    assert(POWER_MAX * POWER_MAX * a * a == num) by (nonlinear_arith)
        requires
            num == 1000 * 1000 * a2,
            a2 == a * a,
    ;
    let r = isqrt(num / den);
    assert(r <= POWER_MAX) by (nonlinear_arith)
        requires
            is_isqrt((num / den) as int, r as int),
            num / den <= 1000 * 1000,
    ;
    r as u32
}

fn scale(share: u32, length: u64) -> (r: u32)
    requires
        share <= POWER_MAX,
    ensures
        r == scaled(share as int, length as int),
        r <= POWER_MAX,
{
    if length >= MAX_DETECTION_DISTANCE {
        return 0;
    }
    assert(share * (1000 - length) <= 1000 * 1000) by (nonlinear_arith)
        requires
            share <= 1000,
            length < 1000,
    ;
    let s: u64 = share as u64 * (MAX_DETECTION_DISTANCE - length) / MAX_DETECTION_DISTANCE;
    assert(s <= share) by (nonlinear_arith)
        requires
            s == share * (1000 - length) / 1000,
            length < 1000,
    ;
    s as u32
}

/// The motor intensities for a hazard vector relative to the wearer's heading.
pub fn get_speeds(vector: Vector) -> (r: VibrationSystemSpeeds)
    requires
        within_mapping(vector.rotation),
    ensures
        r == speeds_for(vector),
        r.front <= POWER_MAX && r.back <= POWER_MAX && r.left <= POWER_MAX && r.right <= POWER_MAX,
{
    let d = if vector.rotation.x == 0 && vector.rotation.y == 0 {
        Direction { x: 1, y: 0 }
    } else {
        vector.rotation
    };
    let l = vector.length;
    VibrationSystemSpeeds {
        front: scale(axis_share(d.x, d.y), l),
        back: scale(axis_share(-d.x, d.y), l),
        left: scale(axis_share(d.y, d.x), l),
        right: scale(axis_share(-d.y, d.x), l),
    }
}


/// A vector whose length is the rounded-down magnitude of its direction, as
/// in every hazard report.
pub open spec fn consistent(v: Vector) -> bool {
    is_isqrt(v.rotation.x * v.rotation.x + v.rotation.y * v.rotation.y, v.length as int)
}

/// A heading as successive positions give it: each component the difference
/// of two `i32` coordinates.
pub open spec fn heading_bounded(h: Direction) -> bool {
    -0x1_0000_0000 <= h.x <= 0x1_0000_0000 && -0x1_0000_0000 <= h.y <= 0x1_0000_0000
}

/// The heading that is used: angle 0 where none is known yet.
pub open spec fn heading_turn(heading: Option<Direction>) -> Direction {
    match heading {
        Some(h) => turn_of(h),
        None => Direction { x: 1, y: 0 },
    }
}

/// A hazard vector turned by the opposite of the wearer's heading: its angle
/// is the hazard's bearing less the heading, so 0 is straight ahead.
pub open spec fn relative_vector(hazard: Vector, heading: Option<Direction>) -> Vector {
    let h = heading_turn(heading);
    let t = turned(turn_of(hazard.rotation), Direction { x: h.x, y: (-h.y) as i64 });
    Vector { rotation: Direction { x: t.0 as i64, y: t.1 as i64 }, length: hazard.length }
}

fn turn(d: Direction) -> (r: Direction)
    ensures
        r == turn_of(d),
{
    if d.x == 0 && d.y == 0 {
        Direction { x: 1, y: 0 }
    } else {
        d
    }
}

/// The motor intensities for a hazard vector, felt relative to the wearer's
/// heading (angle 0 where no heading is known).
pub fn hazard_speeds(hazard: &Vector, heading: Option<Direction>) -> (r: VibrationSystemSpeeds)
    requires
        consistent(*hazard),
        heading matches Some(h) ==> heading_bounded(h),
    ensures
        r == speeds_for(relative_vector(*hazard, heading)),
{
    if hazard.length >= MAX_DETECTION_DISTANCE {
        assert(strength(hazard.length as int) == 0);
        assert(forall|c: int| #[trigger] (c * 0) == 0) by (nonlinear_arith);
        return VibrationSystemSpeeds { front: 0, back: 0, left: 0, right: 0 };
    }
    let x = hazard.rotation.x;
    let y = hazard.rotation.y;
    assert(-1000 < x < 1000 && -1000 < y < 1000) by (nonlinear_arith)
        requires
            x * x + y * y < (hazard.length + 1) * (hazard.length + 1),
            hazard.length < 1000,
    ;
    let h = match heading {
        Some(h) => turn(h),
        None => Direction { x: 1, y: 0 },
    };
    let d = turn(hazard.rotation);
    assert(-0x1_0000_0000 <= h.x <= 0x1_0000_0000 && -0x1_0000_0000 <= h.y <= 0x1_0000_0000);
    proof {
        lemma_bounded_product(d.x as int, h.x as int);
        lemma_bounded_product(d.y as int, -h.y);
        lemma_bounded_product(d.x as int, -h.y);
        lemma_bounded_product(d.y as int, h.x as int);
    }
    let rel = Vector::new(d, hazard.length).rotate(h.inverse());
    get_speeds(rel)
}

proof fn lemma_bounded_product(a: int, b: int)
    requires
        -1000 <= a <= 1000,
        -0x1_0000_0000 <= b <= 0x1_0000_0000,
    ensures
        -1000 * 0x1_0000_0000 <= a * b <= 1000 * 0x1_0000_0000,
{
    assert(-1000 * 0x1_0000_0000 <= a * b <= 1000 * 0x1_0000_0000) by (nonlinear_arith)
        requires
            -1000 <= a <= 1000,
            -0x1_0000_0000 <= b <= 0x1_0000_0000,
    ;
}

/// The first report of the least distance.
pub open spec fn is_first_nearest(rs: Seq<HazardReport>, j: int) -> bool {
    &&& 0 <= j < rs.len()
    &&& forall|k: int| 0 <= k < rs.len() ==> rs[j].distance <= (#[trigger] rs[k]).distance
    &&& forall|k: int| 0 <= k < j ==> (#[trigger] rs[k]).distance > rs[j].distance
}

pub open spec fn nearest_report(rs: Seq<HazardReport>) -> int {
    choose|j: int| is_first_nearest(rs, j)
}

proof fn lemma_first_nearest_unique(rs: Seq<HazardReport>, i: int, j: int)
    requires
        is_first_nearest(rs, i),
        is_first_nearest(rs, j),
    ensures
        i == j,
{
    if i < j {
        assert(rs[i].distance > rs[j].distance);
    } else if j < i {
        assert(rs[j].distance > rs[i].distance);
    }
}

/// The nearest hazard among the reports, the first of them on a tie.
pub fn nearest_hazard(rs: &Vec<HazardReport>) -> (r: usize)
    requires
        rs@.len() > 0,
    ensures
        is_first_nearest(rs@, r as int),
        r == nearest_report(rs@),
{
    let mut best: usize = 0;
    let mut k: usize = 1;
    while k < rs.len()
        invariant
            1 <= k <= rs@.len(),
            best < k,
            forall|m: int| 0 <= m < k ==> rs@[best as int].distance <= (#[trigger] rs@[m]).distance,
            forall|m: int| 0 <= m < best ==> (#[trigger] rs@[m]).distance > rs@[best as int].distance,
        decreases rs.len() - k,
    {
        if rs[k].distance < rs[best].distance {
            best = k;
        }
        k = k + 1;
    }
    proof {
        lemma_first_nearest_unique(rs@, best as int, nearest_report(rs@));
    }
    best
}

/// What one control-loop tick decides: the position given to the hazard
/// index, the wearer's heading, the nearest hazard, and the motor
/// intensities; `None` for the intensities when no hazard is near, which
/// stops every motor.
#[derive(Clone, Copy, Debug, PartialEq, Eq, Structural)]
pub struct Tick {
    pub position: Option<Point>,
    pub heading: Option<Direction>,
    pub nearest: Option<HazardReport>,
    pub speeds: Option<VibrationSystemSpeeds>,
}

/// The nearest hazard and the motor intensities for a set of reports.
pub open spec fn guidance(reports: Option<Seq<HazardReport>>, heading: Option<Direction>) -> (
    Option<HazardReport>,
    Option<VibrationSystemSpeeds>,
) {
    match reports {
        None => (None, None),
        Some(rs) => {
            let n = rs[nearest_report(rs)];
            (Some(n), Some(speeds_for(relative_vector(n.vector, heading))))
        },
    }
}

/// The control loop's memory between ticks: the last valid position and the
/// last heading that two valid positions gave.
pub struct ControlLoop {
    last_position: Option<Point>,
    heading: Option<Direction>,
}

impl ControlLoop {
    pub closed spec fn last_position(&self) -> Option<Point> {
        self.last_position
    }

    pub closed spec fn heading(&self) -> Option<Direction> {
        self.heading
    }

    pub open spec fn wf(&self) -> bool {
        self.heading() matches Some(h) ==> heading_bounded(h)
    }

    /// No position and no heading known yet.
    pub fn new() -> (r: ControlLoop)
        ensures
            r.last_position() is None,
            r.heading() is None,
            r.wf(),
    {
        ControlLoop { last_position: None, heading: None }
    }

    /// One tick with a new reading. A valid reading becomes the position, and
    /// after an earlier valid position gives the heading; an invalid one
    /// changes neither. The position, where one is known, goes to the hazard
    /// index, which is then analysed; the nearest hazard, felt relative to the
    /// heading, gives the motor intensities.
    pub fn tick(&mut self, reading: &GNRMC, analyzer: &mut HazardAnalyzer) -> (t: Tick)
        requires
            reading.wf(),
            old(self).wf(),
        ensures
            final(self).wf(),
            reading.status == 1 ==> final(self).last_position() == Some(reading.point()),
            reading.status == 1 ==> final(self).heading() == (match old(self).last_position() {
                Some(p) => Some(moved(p, reading.point())),
                None => old(self).heading(),
            }),
            reading.status != 1 ==> final(self).last_position() == old(self).last_position()
                && final(self).heading() == old(self).heading(),
            final(analyzer).elements() == old(analyzer).elements(),
            final(analyzer).location() == (match final(self).last_position() {
                Some(p) => p,
                None => old(analyzer).location(),
            }),
            t.position == final(self).last_position(),
            t.heading == final(self).heading(),
            (t.nearest, t.speeds) == guidance(
                analysis(final(analyzer).elements(), final(analyzer).location()),
                final(self).heading(),
            ),
    {
        if reading.is_valid() {
            let here = reading.google_coordinates();
            match self.last_position {
                Some(p) => {
                    self.heading = Some(displacement(&p, &here));
                },
                None => {},
            }
            self.last_position = Some(here);
        }
        match self.last_position {
            Some(p) => analyzer.update_location(p),
            None => {},
        }
        let reports = analyzer.analyze();
        match reports {
            None => Tick { position: self.last_position, heading: self.heading, nearest: None, speeds: None },
            Some(rs) => {
                let ghost elems = analyzer.elements();
                let ghost at = analyzer.location();
                let j = nearest_hazard(&rs);
                let r = rs[j];
                proof {
                    lemma_report_consistent(elems, at, rs@, j as int);
                }
                let speeds = hazard_speeds(&r.vector, self.heading);
                Tick {
                    position: self.last_position,
                    heading: self.heading,
                    nearest: Some(r),
                    speeds: Some(speeds),
                }
            },
        }
    }
}

/// Every report of an analysis holds a consistent vector.
pub proof fn lemma_report_consistent(
    elems: Seq<Element>,
    at: Point,
    rs: Seq<HazardReport>,
    j: int,
)
    requires
        analysis(elems, at) == Some(rs),
        0 <= j < rs.len(),
    ensures
        consistent(rs[j].vector),
{
    let found = nearby(elems, at, DETECTION_RADIUS as int);
    assert(rs[j] == report_of(elems, at, found[j]));
    let pts = locations(elems[found[j] as int]);
    let p = pts[nearest_vertex(pts, at)];
    let n = sq_dist(p, at);
    assert(n >= 0) by (nonlinear_arith)
        requires
            n == (p.lat - at.lat) * (p.lat - at.lat) + (p.lon - at.lon) * (p.lon - at.lon),
    ;
    lemma_isqrt_exists(n);
    let r = root(n);
    assert(n < 0x2_0000_0000_0000_0000) by (nonlinear_arith)
        requires
            n == (p.lat - at.lat) * (p.lat - at.lat) + (p.lon - at.lon) * (p.lon - at.lon),
            -0x8000_0000 <= p.lat < 0x8000_0000,
            -0x8000_0000 <= p.lon < 0x8000_0000,
            -0x8000_0000 <= at.lat < 0x8000_0000,
            -0x8000_0000 <= at.lon < 0x8000_0000,
    ;
    assert(r < 0x1_0000_0000_0000_0000) by (nonlinear_arith)
        requires
            r * r <= n,
            n < 0x2_0000_0000_0000_0000,
            0 <= r,
    ;
}

/// What to do about the narration: start one, cancel the running one, or
/// leave things as they are.
#[derive(Clone, Copy, Debug, PartialEq, Eq, Structural)]
pub enum NarrationAction {
    Start,
    Cancel,
    Keep,
}

/// A narration starts when the button is held and none is running, and is
/// cancelled when the button is released.
pub fn narration_action(pressed: bool, speaking: bool) -> (r: NarrationAction)
    ensures
        r == (if pressed && !speaking {
            NarrationAction::Start
        } else if !pressed && speaking {
            NarrationAction::Cancel
        } else {
            NarrationAction::Keep
        }),
{
    if pressed && !speaking {
        NarrationAction::Start
    } else if !pressed && speaking {
        NarrationAction::Cancel
    } else {
        NarrationAction::Keep
    }
}

/// What the narration says of the nearest hazard: a pedestrian crossing is
/// named as such.
pub fn announcement(analyzer: &HazardAnalyzer, nearest: Option<HazardReport>) -> (r: &'static str)
    ensures
        nearest is None ==> r@ == "No hazards detected"@,
        nearest matches Some(n) ==> (if n.hazard < analyzer.elements().len() && has_tag(
            analyzer.elements()[n.hazard as int],
            "highway"@,
            "crossing"@,
        ) {
            r@ == "Hazard ahead pedestrian crossing"@
        } else {
            r@ == "Hazard ahead"@
        }),
{
    match nearest {
        None => "No hazards detected",
        Some(n) => {
            let elements = analyzer.elements_ref();
            if n.hazard < elements.len() && elements[n.hazard].has_tag("highway", "crossing") {
                "Hazard ahead pedestrian crossing"
            } else {
                "Hazard ahead"
            }
        },
    }
}

/// The time budget of one control-loop iteration, in microseconds.
pub const LOOP_PERIOD_US: u64 = 100_000;

/// How an iteration ends: sleep for the rest of its budget, or report that
/// it overran the budget by so many microseconds and go on at once.
#[derive(Clone, Copy, Debug, PartialEq, Eq, Structural)]
pub enum LoopTiming {
    Sleep(u64),
    Overrun(u64),
}

pub fn loop_timing(elapsed_us: u64) -> (r: LoopTiming)
    ensures
        elapsed_us <= LOOP_PERIOD_US ==> r == LoopTiming::Sleep((LOOP_PERIOD_US - elapsed_us) as u64),
        elapsed_us > LOOP_PERIOD_US ==> r == LoopTiming::Overrun((elapsed_us - LOOP_PERIOD_US) as u64),
{
    if elapsed_us <= LOOP_PERIOD_US {
        LoopTiming::Sleep(LOOP_PERIOD_US - elapsed_us)
    } else {
        LoopTiming::Overrun(elapsed_us - LOOP_PERIOD_US)
    }
}

} // verus!
