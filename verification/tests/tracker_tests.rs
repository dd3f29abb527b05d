use mouse_odometer::tracker::step_nanometers;
use mouse_odometer::Position;
use mouse_odometer::Tracker;

#[test]
fn step_along_one_axis() {
    // 100 pixels at 264583 nanometers per pixel.
    assert_eq!(step_nanometers(Position::new(0, 0), Position::new(100, 0)), 26_458_300);
    assert_eq!(step_nanometers(Position::new(0, 0), Position::new(0, 7)), 1_852_081);
}

#[test]
fn step_diagonal_triangle() {
    // A 3-4-5 right triangle: exactly 5 pixels of travel.
    assert_eq!(step_nanometers(Position::new(0, 0), Position::new(3, 4)), 5 * 264_583);
}

#[test]
fn step_zero_delta() {
    assert_eq!(step_nanometers(Position::new(12, -34), Position::new(12, -34)), 0);
}

#[test]
fn startup_seeds_from_checkpoint_text() {
    // A checkpoint file holding "1000": startup total is 1000 meters.
    let t = Tracker::new(Some("1000"), Position::new(0, 0), 0);
    assert_eq!(t.total_nanometers(), 1_000_000_000_000);
}

#[test]
fn startup_scenario_integrate_and_snapshot() {
    // Startup at 1000 meters; one 100-pixel horizontal move adds
    // 0.0264583 meters; the display shows kilometers to three decimals.
    let mut t = Tracker::new(Some("1000"), Position::new(0, 0), 0);
    t.integrate(Position::new(100, 0));
    assert_eq!(t.total_nanometers(), 1_000_026_458_300);
    assert_eq!(t.shutdown_text(), "1000.0264583");
    assert_eq!(t.get_kilometers(), "1.000");
    assert_eq!(t.last_position(), Position::new(100, 0));
}

#[test]
fn fresh_start_scenario() {
    // No checkpoint file: total starts at zero; an identical second sample
    // leaves it at zero.
    let mut t = Tracker::new(None, Position::new(50, 60), 0);
    assert_eq!(t.total_nanometers(), 0);
    let save = t.update(Position::new(50, 60), 0);
    assert_eq!(save, None);
    assert_eq!(t.total_nanometers(), 0);
    assert_eq!(t.get_kilometers(), "0.000");
}

#[test]
fn zero_delta_never_changes_total() {
    let mut t = Tracker::new(Some("5.5"), Position::new(9, 9), 0);
    let before = t.total_nanometers();
    t.integrate(Position::new(9, 9));
    t.integrate(Position::new(9, 9));
    assert_eq!(t.total_nanometers(), before);
}

#[test]
fn sequence_sums_steps() {
    // (0,0) -> (3,4) -> (3,104): 5 pixels, then 100 pixels.
    let mut t = Tracker::new(None, Position::new(0, 0), 0);
    t.integrate(Position::new(3, 4));
    t.integrate(Position::new(3, 104));
    assert_eq!(t.total_nanometers(), 105 * 264_583);
    assert_eq!(t.last_position(), Position::new(3, 104));
}

#[test]
fn reset_zeroes_and_yields_one_write() {
    let mut t = Tracker::new(Some("77.7"), Position::new(1, 2), 0);
    assert!(t.total_nanometers() > 0);
    let save = t.reset();
    assert_eq!(save, "0");
    assert_eq!(t.total_nanometers(), 0);
    assert_eq!(t.last_position(), Position::new(1, 2));
}

#[test]
fn reset_bypasses_the_checkpoint_gate() {
    // Well inside the checkpoint interval, a cycle writes nothing, yet a
    // reset still yields its unconditional write.
    let mut t = Tracker::new(Some("77.7"), Position::new(1, 2), 0);
    assert_eq!(t.update(Position::new(1, 2), 10), None);
    let save = t.apply_reset(true);
    assert_eq!(save, Some("0".to_string()));
    assert_eq!(t.total_nanometers(), 0);
}

#[test]
fn declined_reset_changes_nothing() {
    let mut t = Tracker::new(Some("123.456"), Position::new(4, 5), 7);
    let before_total = t.total_nanometers();
    let before_pos = t.last_position();
    let before_ms = t.last_checkpoint_millis();
    let save = t.apply_reset(false);
    assert_eq!(save, None);
    assert_eq!(t.total_nanometers(), before_total);
    assert_eq!(t.last_position(), before_pos);
    assert_eq!(t.last_checkpoint_millis(), before_ms);
}

#[test]
fn shutdown_writes_canonical_decimal_text() {
    // A tracker holding 42.5 meters: the shutdown write is "42.5".
    let t = Tracker::new(Some("42.5"), Position::new(0, 0), 0);
    assert_eq!(t.shutdown_text(), "42.5");
}

#[test]
fn checkpoint_gating_across_cycles() {
    let p = Position::new(0, 0);
    let mut t = Tracker::new(None, p, 0);
    // Inside the interval: no write.
    assert_eq!(t.update(p, 59_999), None);
    // The interval has elapsed: one write.
    assert!(t.update(p, 60_000).is_some());
    // A second check separated by less than the interval: no write.
    assert_eq!(t.update(p, 60_001), None);
    assert_eq!(t.update(p, 119_999), None);
    // Separated by more than the interval: a write again.
    assert!(t.update(p, 120_000).is_some());
}

#[test]
fn periodic_checkpoint_writes_current_total() {
    let mut t = Tracker::new(Some("1000"), Position::new(0, 0), 0);
    let save = t.update(Position::new(100, 0), 60_000);
    assert_eq!(save, Some("1000.0264583".to_string()));
}

#[test]
fn display_rounds_to_three_decimals() {
    // 1499.5 meters rounds half-up to 1.500 km on the display.
    let t = Tracker::new(Some("1499.5"), Position::new(0, 0), 0);
    assert_eq!(t.get_kilometers(), "1.500");
    let u = Tracker::new(Some("1499.499999999"), Position::new(0, 0), 0);
    assert_eq!(u.get_kilometers(), "1.499");
}
