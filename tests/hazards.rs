use safewalk::geometry::{bbox, distance, isqrt, Direction, Point, Vector};
use safewalk::hazard_analyzer::{severity, HazardAnalyzer, HazardSeverity};
use safewalk::overpass::{Element, OverpassBounds, Tag};

fn node(id: u64, lat: i32, lon: i32) -> Element {
    Element::Node { id, lat, lon, tags: Vec::new() }
}

fn tag(k: &str, v: &str) -> Tag {
    Tag { key: k.to_string(), value: v.to_string() }
}

const HERE: Point = Point { lat: 334_233_220, lon: -1_119_326_480 };

#[test]
fn severity_tiers_by_distance() {
    let elements = vec![
        node(1, HERE.lat + 2_000, HERE.lon),
        node(2, HERE.lat, HERE.lon + 5_000),
        node(3, HERE.lat - 8_000, HERE.lon),
        node(4, HERE.lat + 20_000, HERE.lon),
    ];
    let analyzer = HazardAnalyzer::new(HERE.lat, HERE.lon, elements);
    let reports = analyzer.analyze().unwrap();
    assert_eq!(reports.len(), 3);
    assert_eq!(reports[0].hazard, 0);
    assert_eq!(reports[0].distance, 2_000);
    assert_eq!(reports[0].severity, HazardSeverity::High);
    assert_eq!(reports[1].severity, HazardSeverity::Medium);
    assert_eq!(reports[2].severity, HazardSeverity::Low);
    assert!(reports.iter().all(|r| r.hazard != 3));
    assert_eq!(analyzer.nearby_hazards(10_000), vec![0, 1, 2]);
}

#[test]
fn severity_thresholds() {
    assert_eq!(severity(2_999), HazardSeverity::High);
    assert_eq!(severity(3_000), HazardSeverity::Medium);
    assert_eq!(severity(5_999), HazardSeverity::Medium);
    assert_eq!(severity(6_000), HazardSeverity::Low);
}

#[test]
fn report_vector_points_at_nearest_vertex() {
    let way = Element::Way {
        bounds: OverpassBounds { max_lat: 0, max_lon: 0, min_lat: 0, min_lon: 0 },
        geometry: vec![
            Point { lat: HERE.lat + 9_000, lon: HERE.lon },
            Point { lat: HERE.lat + 300, lon: HERE.lon + 400 },
            Point { lat: HERE.lat - 400, lon: HERE.lon - 300 },
        ],
        id: 7,
        nodes: None,
        tags: vec![tag("kerb", "raised")],
    };
    let analyzer = HazardAnalyzer::new(HERE.lat, HERE.lon, vec![way]);
    let reports = analyzer.analyze().unwrap();
    assert_eq!(reports.len(), 1);
    assert_eq!(reports[0].distance, 500);
    assert_eq!(reports[0].vector, Vector { rotation: Direction { x: 400, y: 300 }, length: 500 });
}

#[test]
fn nothing_near_gives_none() {
    let relation = Element::Relation { id: 9, members: Vec::new(), tags: Vec::new() };
    let mut analyzer = HazardAnalyzer::new(HERE.lat, HERE.lon, vec![relation, node(2, 0, 0)]);
    assert!(analyzer.analyze().is_none());
    assert!(analyzer.nearby_hazards(1_000_000).is_empty());
    analyzer.update_location(Point { lat: 10, lon: 0 });
    assert_eq!(analyzer.nearby_hazards(10), vec![1]);
    assert_eq!(analyzer.nearby_hazards(9), Vec::<usize>::new());
    analyzer.update_elements(Vec::new());
    assert!(analyzer.analyze().is_none());
}

#[test]
fn analyze_twice_is_identical() {
    let analyzer = HazardAnalyzer::new(
        HERE.lat,
        HERE.lon,
        vec![node(1, HERE.lat + 100, HERE.lon), node(2, HERE.lat, HERE.lon - 7_000)],
    );
    assert_eq!(analyzer.analyze(), analyzer.analyze());
}

#[test]
fn element_points_and_tags() {
    let crossing = Element::Node { id: 1, lat: 5, lon: 6, tags: vec![tag("highway", "crossing")] };
    assert_eq!(crossing.location(), vec![Point { lat: 5, lon: 6 }]);
    assert!(crossing.has_tag("highway", "crossing"));
    assert!(!crossing.has_tag("highway", "steps"));
    assert_eq!(crossing.tags().len(), 1);
    let relation = Element::Relation { id: 2, members: Vec::new(), tags: Vec::new() };
    assert!(relation.location().is_empty());
}

#[test]
fn geometry_basics() {
    assert_eq!(isqrt(0), 0);
    assert_eq!(isqrt(24), 4);
    assert_eq!(isqrt(25), 5);
    assert_eq!(isqrt(u128::MAX), u64::MAX);
    assert_eq!(distance(&Point { lat: 0, lon: 0 }, &Point { lat: 3, lon: 4 }), 5);
    assert_eq!(
        distance(&Point { lat: i32::MIN, lon: i32::MIN }, &Point { lat: i32::MAX, lon: i32::MAX }),
        6_074_000_998
    );
    let b = bbox(334_233_220, -1_119_326_480, 150_000);
    assert_eq!(b[0], Point { lat: 334_083_220, lon: -1_119_476_480 });
    assert_eq!(b[1], Point { lat: 334_383_220, lon: -1_119_176_480 });
    let v = Vector::new(Direction { x: 1, y: 2 }, 7).rotate(Direction { x: 0, y: 1 });
    assert_eq!(v, Vector { rotation: Direction { x: -2, y: 1 }, length: 7 });
    assert_eq!(Direction { x: 3, y: 4 }.inverse(), Direction { x: 3, y: -4 });
}
