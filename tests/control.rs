use safewalk::geometry::{Direction, Point, Vector};
use safewalk::gps::GNRMC;
use safewalk::hazard_analyzer::HazardAnalyzer;
use safewalk::motor::{MotorMode, MotorState, Pulse};
use safewalk::overpass::{Element, Tag};
use safewalk::safewalk::{
    announcement, get_speeds, hazard_speeds, loop_timing, narration_action, ControlLoop, LoopTiming,
    NarrationAction, VibrationSystemSpeeds,
};

fn speeds(front: u32, back: u32, left: u32, right: u32) -> VibrationSystemSpeeds {
    VibrationSystemSpeeds { front, back, left, right }
}

fn reading(lat_raw: i64, lon_raw: i64, status: u8) -> GNRMC {
    GNRMC {
        lon: lon_raw,
        lat: lat_raw,
        lon_area: b'E',
        lat_area: b'N',
        time_h: 0,
        time_m: 0,
        time_s: 0,
        status,
    }
}

#[test]
fn hazard_straight_ahead_drives_front() {
    let heading = Direction { x: 1, y: 0 };
    let hazard = Vector { rotation: Direction { x: 100, y: 0 }, length: 100 };
    assert_eq!(hazard_speeds(&hazard, Some(heading)), speeds(900, 0, 0, 0));
    let at_wearer = Vector { rotation: Direction { x: 0, y: 0 }, length: 0 };
    assert_eq!(hazard_speeds(&at_wearer, Some(heading)), speeds(1000, 0, 0, 0));
}

#[test]
fn hazard_sides_and_behind() {
    let east = Some(Direction { x: 50, y: 0 });
    let north = Vector { rotation: Direction { x: 0, y: 100 }, length: 100 };
    let south = Vector { rotation: Direction { x: 0, y: -100 }, length: 100 };
    let west = Vector { rotation: Direction { x: -100, y: 0 }, length: 100 };
    assert_eq!(hazard_speeds(&north, east), speeds(0, 0, 900, 0));
    assert_eq!(hazard_speeds(&south, east), speeds(0, 0, 0, 900));
    assert_eq!(hazard_speeds(&west, east), speeds(0, 900, 0, 0));
    // walking north, a hazard to the east lies on the right
    let east_hazard = Vector { rotation: Direction { x: 100, y: 0 }, length: 100 };
    assert_eq!(hazard_speeds(&east_hazard, Some(Direction { x: 0, y: 7 })), speeds(0, 0, 0, 900));
    // no heading known: angle 0
    assert_eq!(hazard_speeds(&north, None), speeds(0, 0, 900, 0));
}

#[test]
fn far_hazards_do_not_vibrate() {
    let far = Vector { rotation: Direction { x: 1_000, y: 0 }, length: 1_000 };
    assert_eq!(hazard_speeds(&far, None), speeds(0, 0, 0, 0));
}

#[test]
fn diagonal_splits_between_motors() {
    let v = Vector { rotation: Direction { x: 1, y: 1 }, length: 0 };
    assert_eq!(get_speeds(v), speeds(707, 0, 707, 0));
    let v = Vector { rotation: Direction { x: -3, y: -4 }, length: 500 };
    assert_eq!(get_speeds(v), speeds(0, 300, 0, 400));
}

#[test]
fn speeds_listed_clockwise() {
    assert_eq!(speeds(1, 2, 3, 4).vec(), vec![1, 4, 2, 3]);
}

#[test]
fn tick_follows_hazard_relative_to_heading() {
    let mut control = ControlLoop::new();
    let hazard = Element::Node { id: 1, lat: 0, lon: 200, tags: Vec::new() };
    let mut analyzer = HazardAnalyzer::new(50_000, 50_000, vec![hazard]);

    let first = control.tick(&reading(0, 0, 1), &mut analyzer);
    assert_eq!(first.position, Some(Point { lat: 0, lon: 0 }));
    assert_eq!(first.heading, None);
    assert_eq!(first.nearest.unwrap().distance, 200);
    assert_eq!(first.speeds, Some(speeds(800, 0, 0, 0)));

    // 600 millionths of a minute east: 100 units
    let second = control.tick(&reading(0, 600, 1), &mut analyzer);
    assert_eq!(second.position, Some(Point { lat: 0, lon: 100 }));
    assert_eq!(second.heading, Some(Direction { x: 100, y: 0 }));
    assert_eq!(second.speeds, Some(speeds(900, 0, 0, 0)));

    // an invalid reading keeps the position and the heading
    let third = control.tick(&reading(0, 0, 0), &mut analyzer);
    assert_eq!(third.position, Some(Point { lat: 0, lon: 100 }));
    assert_eq!(third.heading, Some(Direction { x: 100, y: 0 }));
    assert_eq!(third.speeds, second.speeds);
}

#[test]
fn tick_without_hazards_stops_motors() {
    let mut control = ControlLoop::new();
    let mut analyzer = HazardAnalyzer::new(0, 0, Vec::new());
    let t = control.tick(&GNRMC::default(), &mut analyzer);
    assert_eq!(t.position, None);
    assert_eq!(t.nearest, None);
    assert_eq!(t.speeds, None);
}

#[test]
fn announcements() {
    let crossing = Element::Node {
        id: 1,
        lat: 0,
        lon: 10,
        tags: vec![Tag { key: "highway".to_string(), value: "crossing".to_string() }],
    };
    let kerb = Element::Node {
        id: 2,
        lat: 0,
        lon: 20,
        tags: vec![Tag { key: "kerb".to_string(), value: "raised".to_string() }],
    };
    let mut analyzer = HazardAnalyzer::new(0, 0, vec![crossing, kerb]);
    let reports = analyzer.analyze().unwrap();
    assert_eq!(announcement(&analyzer, Some(reports[0])), "Hazard ahead pedestrian crossing");
    assert_eq!(announcement(&analyzer, Some(reports[1])), "Hazard ahead");
    assert_eq!(announcement(&analyzer, None), "No hazards detected");
    analyzer.update_location(Point { lat: 0, lon: 30 });
    let mut control = ControlLoop::new();
    let t = control.tick(&GNRMC::default(), &mut analyzer);
    assert_eq!(t.nearest.unwrap().hazard, 1);
}

#[test]
fn narration_follows_button() {
    assert_eq!(narration_action(true, false), NarrationAction::Start);
    assert_eq!(narration_action(true, true), NarrationAction::Keep);
    assert_eq!(narration_action(false, true), NarrationAction::Cancel);
    assert_eq!(narration_action(false, false), NarrationAction::Keep);
}

#[test]
fn loop_budget() {
    assert_eq!(loop_timing(30_000), LoopTiming::Sleep(70_000));
    assert_eq!(loop_timing(100_000), LoopTiming::Sleep(0));
    assert_eq!(loop_timing(150_000), LoopTiming::Overrun(50_000));
}

#[test]
fn motor_power_is_clamped() {
    let mut m = MotorState::new();
    assert_eq!(m.mode(), MotorMode::Off);
    m.set(-5);
    assert_eq!((m.mode(), m.power()), (MotorMode::Pwm, 0));
    m.set(5_000);
    assert_eq!(m.power(), 1_000);
    m.set(550);
    assert_eq!(m.power(), 550);
    assert_eq!(m.cycle(), Pulse { driven_us: 5_500, idle_us: 4_500 });
    m.on();
    assert_eq!((m.mode(), m.power()), (MotorMode::On, 550));
    assert_eq!(m.cycle(), Pulse { driven_us: 10_000, idle_us: 0 });
    m.off();
    assert_eq!(m.cycle(), Pulse { driven_us: 0, idle_us: 10_000 });
}

#[test]
fn front_is_strongest_straight_ahead() {
    let ahead = get_speeds(Vector { rotation: Direction { x: 1, y: 0 }, length: 250 });
    assert_eq!(ahead, speeds(750, 0, 0, 0));
    for (x, y) in [(3, 1), (1, -1), (-2, 5), (0, 9), (7, 0)] {
        let other = get_speeds(Vector { rotation: Direction { x, y }, length: 250 });
        assert!(other.front <= ahead.front);
    }
}
