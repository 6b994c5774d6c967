use safewalk::geometry::Point;
use safewalk::gps::{frame_command, parse_coordinate, parse_sentence, Command, Gps, GpsSimulator, ReadStep, GNRMC};

const FIX: &[u8] = b"$GNRMC,123519.00,A,4807.038,N,01131.000,E,022.4,084.4,230394,003.1,W*6A\r\n";

fn extract_all(bytes: &[u8]) -> Option<GNRMC> {
    let mut gps = Gps::new();
    gps.feed(bytes);
    gps.try_extract_fix()
}

#[test]
fn parses_valid_sentence() {
    let fix = extract_all(FIX).expect("a fix");
    assert_eq!(fix.status, 1);
    assert_eq!(fix.time_h, 20);
    assert_eq!(fix.time_m, 35);
    assert_eq!(fix.time_s, 19);
    assert_eq!(fix.lat, 4_807_038_000);
    assert_eq!(fix.lat_area, b'N');
    assert_eq!(fix.lon, 1_131_000_000);
    assert_eq!(fix.lon_area, b'E');
    assert!(fix.is_valid());
}

#[test]
fn converts_to_decimal_degrees() {
    let fix = extract_all(FIX).unwrap();
    let p = fix.google_coordinates();
    assert_eq!(p, Point { lat: 481_173_000, lon: 115_166_666 });
    // 48 + 7.038/60 and 11 + 31/60 degrees, within 1e-6
    assert!((p.lat as f64 / 1e7 - (48.0 + 7.038 / 60.0)).abs() < 1e-6);
    assert!((p.lon as f64 / 1e7 - (11.0 + 31.0 / 60.0)).abs() < 1e-6);
}

#[test]
fn southern_and_western_are_negative() {
    let fix = extract_all(b"$GPRMC,000000,A,3325.4093,S,11155.9589,W,0.0,0.0,010125,,,A\r\n").unwrap();
    let p = fix.google_coordinates();
    assert_eq!(p, Point { lat: -334_234_883, lon: -1_119_326_483 });
    assert!((p.lat as f64 / 1e7 + (33.0 + 25.4093 / 60.0)).abs() < 1e-6);
    assert!((p.lon as f64 / 1e7 + (111.0 + 55.9589 / 60.0)).abs() < 1e-6);
}

#[test]
fn invalid_status_resets_position() {
    let mut gps = Gps::new();
    gps.feed(FIX);
    assert_eq!(gps.try_extract_fix().unwrap().status, 1);
    gps.feed(b"$GNRMC,123520.00,V,4807.038,N,01131.000,E,,,230394,,,N\r\n");
    let fix = gps.try_extract_fix().unwrap();
    assert_eq!(fix.status, 0);
    assert_eq!(fix.lat, 0);
    assert_eq!(fix.lon, 0);
    assert_eq!(fix.lat_area, 0);
    assert_eq!(fix.lon_area, 0);
    assert_eq!((fix.time_h, fix.time_m, fix.time_s), (20, 35, 20));
    assert!(!fix.is_valid());
}

#[test]
fn status_with_white_space_is_valid() {
    let fix = parse_sentence(b"$GNRMC,010203, A ,1000.0,N,00100.0,E");
    assert_eq!(fix.status, 1);
    assert_eq!(fix.lat, 1_000_000_000);
    assert_eq!(fix.lon, 100_000_000);
}

#[test]
fn too_few_fields_give_empty_fix() {
    let fix = parse_sentence(b"$GNRMC,123519");
    assert_eq!(fix, GNRMC::default());
}

#[test]
fn time_wraps_past_midnight() {
    let fix = parse_sentence(b"$GNRMC,200000,V");
    assert_eq!((fix.time_h, fix.time_m, fix.time_s), (4, 0, 0));
    let fix = parse_sentence(b"$GNRMC,12a519,V");
    assert_eq!((fix.time_h, fix.time_m, fix.time_s), (0, 0, 0));
}

#[test]
fn unreadable_numbers_default_to_zero() {
    let fix = parse_sentence(b"$GNRMC,123519,A,48x7.038,N,,E");
    assert_eq!(fix.status, 1);
    assert_eq!(fix.lat, 0);
    assert_eq!(fix.lat_area, b'N');
    assert_eq!(fix.lon, 0);
    assert_eq!(fix.lon_area, b'E');
}

#[test]
fn coordinate_grammar() {
    assert_eq!(parse_coordinate(b"4807.038"), Some(4_807_038_000));
    assert_eq!(parse_coordinate(b"4807.0381239"), Some(4_807_038_123));
    assert_eq!(parse_coordinate(b".5"), Some(500_000));
    assert_eq!(parse_coordinate(b"12."), Some(12_000_000));
    assert_eq!(parse_coordinate(b"18000"), Some(18_000_000_000));
    assert_eq!(parse_coordinate(b"18000.000001"), None);
    assert_eq!(parse_coordinate(b"99999999999999999999"), None);
    assert_eq!(parse_coordinate(b"."), None);
    assert_eq!(parse_coordinate(b""), None);
    assert_eq!(parse_coordinate(b"1.2.3"), None);
    assert_eq!(parse_coordinate(b"-12"), None);
}

#[test]
fn other_sentences_are_skipped() {
    let mut gps = Gps::new();
    gps.feed(b"$GPGSV,3,1,11,03,03,111,00\r\n$GNGGA,1,2,3\r\n");
    gps.feed(FIX);
    let fix = gps.try_extract_fix().unwrap();
    assert_eq!(fix.lat, 4_807_038_000);
    assert_eq!(gps.pending_len(), 1);
}

#[test]
fn partial_sentence_waits_for_more() {
    let mut gps = Gps::new();
    gps.feed(&FIX[..30]);
    assert_eq!(gps.try_extract_fix(), None);
    assert_eq!(gps.pending_len(), 30);
    gps.feed(&FIX[30..]);
    assert_eq!(gps.try_extract_fix().unwrap().lat, 4_807_038_000);
}

#[test]
fn byte_by_byte_matches_one_chunk() {
    let whole = extract_all(FIX);
    let mut gps = Gps::new();
    let mut found = Vec::new();
    for b in FIX.iter() {
        gps.feed(&[*b]);
        if let Some(f) = gps.try_extract_fix() {
            found.push(f);
        }
    }
    assert_eq!(found.len(), 1);
    assert_eq!(Some(found[0]), whole);
}

#[test]
fn overlong_buffer_is_discarded() {
    let mut gps = Gps::new();
    let junk = vec![b'x'; 2500];
    assert_eq!(gps.next_fix(&junk, 1), ReadStep::Retry);
    for attempt in 2..5 {
        assert_eq!(gps.next_fix(&[], attempt), ReadStep::Retry);
    }
    assert_eq!(gps.pending_len(), 2500);
    assert_eq!(gps.next_fix(&[], 5), ReadStep::Fix(GNRMC::default()));
    assert_eq!(gps.pending_len(), 0);
}

#[test]
fn short_buffer_is_kept_on_give_up() {
    let mut gps = Gps::new();
    assert_eq!(gps.next_fix(b"$GNRMC,1", 5), ReadStep::Fix(GNRMC::default()));
    assert_eq!(gps.pending_len(), 8);
}

#[test]
fn read_step_returns_fix() {
    let mut gps = Gps::new();
    match gps.next_fix(FIX, 1) {
        ReadStep::Fix(f) => assert_eq!(f.lon, 1_131_000_000),
        ReadStep::Retry => panic!("expected a fix"),
    }
}

#[test]
fn commands_are_framed_with_checksum() {
    assert_eq!(Command::SetPosFix100ms.as_str(), "$PMTK220,100");
    assert_eq!(frame_command(Command::SetPosFix100ms.as_str()), b"$PMTK220,100*2F\r\n".to_vec());
    assert_eq!(
        frame_command(Command::SetNmeaOutput.as_str()),
        b"$PMTK314,1,1,1,1,1,1,1,1,0,0,0,0,0,0,0,0,0,1,0*29\r\n".to_vec()
    );
    assert_eq!(frame_command(Command::HotStart.as_str()), b"$PMTK101*32\r\n".to_vec());
}

#[test]
fn direction_needs_valid_reading_and_previous_point() {
    let fix = extract_all(FIX).unwrap();
    let prev = Point { lat: 481_172_000, lon: 115_166_666 };
    let d = Gps::direction_since(Some(prev), &fix).unwrap();
    assert_eq!((d.x, d.y), (0, 1_000));
    assert_eq!(Gps::direction_since(None, &fix), None);
    assert_eq!(Gps::direction_since(Some(prev), &GNRMC::default()), None);
}

#[test]
fn simulator_walks_to_the_end() {
    let start = Point { lat: 0, lon: 0 };
    let end = Point { lat: 0, lon: 250 };
    let mut sim = GpsSimulator::new(start, end);
    assert_eq!(sim.get(), Some(Point { lat: 0, lon: 100 }));
    let (p, d) = sim.get_with_direction(Some(Point { lat: 0, lon: 100 }));
    assert_eq!(p, Some(Point { lat: 0, lon: 200 }));
    assert_eq!(d.map(|d| (d.x, d.y)), Some((100, 0)));
    assert_eq!(sim.get(), None);
    assert_eq!(sim.get_with_direction(None), (None, None));
}

#[test]
fn line_end_is_consumed_when_last() {
    let mut gps = Gps::new();
    gps.feed(b"$GNRMC,123519,A,4807.038,N,01131.000,E\r");
    assert_eq!(gps.try_extract_fix().unwrap().lat, 4_807_038_000);
    assert_eq!(gps.pending_len(), 0);
    gps.feed(b"$GPGSV,3,1,11\n");
    assert_eq!(gps.try_extract_fix(), None);
    assert_eq!(gps.pending_len(), 0);
}

#[test]
fn smallest_reading_keeps_its_sign() {
    let fix = parse_sentence(b"$GNRMC,000000,A,0000.000006,S,0000.000006,W");
    assert_eq!(fix.google_coordinates(), Point { lat: -1, lon: -1 });
    let fix = parse_sentence(b"$GNRMC,000000,A,0000.000006,N,0000.000006,E");
    assert_eq!(fix.google_coordinates(), Point { lat: 1, lon: 1 });
}
