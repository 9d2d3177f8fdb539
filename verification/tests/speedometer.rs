use nginx_tail::InstantSpeedometer;
use nginx_tail::Rate;
use nginx_tail::RingbufferSpeedometer;
use nginx_tail::SmootherSpeedometer;

/// The estimators report an exact ratio; the displayable value is the
/// floating-point quotient.
fn as_f32(r: Rate) -> f32 {
    r.num as f32 / r.den as f32
}

#[test]
fn test_ringbuffer_speedometer() {
    let mut speedometer = RingbufferSpeedometer::new(4);
    assert_eq!(as_f32(speedometer.get_speed()), 0.0);
    speedometer.add_measurement(100, 10);
    assert_eq!(as_f32(speedometer.get_speed()), 100.0);
    speedometer.add_measurement(150, 30);
    assert_eq!(as_f32(speedometer.get_speed()), 160.0);
    speedometer.add_measurement(1000, 0);
    assert_eq!(as_f32(speedometer.get_speed()), 32.0);
    speedometer.add_measurement(1000, 0);
    assert_eq!(as_f32(speedometer.get_speed()), 17.777_779);
    speedometer.add_measurement(1000, 0);
    assert_eq!(as_f32(speedometer.get_speed()), 9.523_809);
    speedometer.add_measurement(1000, 0);
    assert_eq!(as_f32(speedometer.get_speed()), 0.0);
    speedometer.add_measurement(1000, 0);
    assert_eq!(as_f32(speedometer.get_speed()), 0.0);
}

#[test]
fn test_instant_speedometer() {
    let mut speedometer = InstantSpeedometer::new();
    assert_eq!(as_f32(speedometer.get_speed()), 0.0);
    speedometer.add_measurement(100, 10);
    assert_eq!(as_f32(speedometer.get_speed()), 100.0);
    speedometer.add_measurement(150, 30);
    assert_eq!(as_f32(speedometer.get_speed()), 200.0);
    speedometer.add_measurement(1000, 0);
    assert_eq!(as_f32(speedometer.get_speed()), 0.0);
    speedometer.add_measurement(1000, 0);
    assert_eq!(as_f32(speedometer.get_speed()), 0.0);
}

#[test]
fn test_smoother_speedometer() {
    let mut speedometer = SmootherSpeedometer::new(1, 2);
    speedometer.add_measurement(100, 10);
    assert_eq!(as_f32(speedometer.get_speed()), 50.0);
    speedometer.add_measurement(150, 30);
    assert_eq!(as_f32(speedometer.get_speed()), 125.0);
    speedometer.add_measurement(1000, 0);
    assert_eq!(as_f32(speedometer.get_speed()), 62.5);
    speedometer.add_measurement(1000, 0);
    assert_eq!(as_f32(speedometer.get_speed()), 31.25);
    speedometer.add_measurement(1000, 0);
    assert_eq!(as_f32(speedometer.get_speed()), 15.625);
    speedometer.add_measurement(1000, 0);
    assert_eq!(as_f32(speedometer.get_speed()), 7.8125);
    speedometer.add_measurement(1000, 0);
    assert_eq!(as_f32(speedometer.get_speed()), 3.90625);
    speedometer.add_measurement(1000, 0);
    assert_eq!(as_f32(speedometer.get_speed()), 1.953125);
    speedometer.add_measurement(1000, 0);
    assert_eq!(as_f32(speedometer.get_speed()), 0.9765625);
    speedometer.add_measurement(1000, 0);
    assert_eq!(as_f32(speedometer.get_speed()), 0.48828125);
    speedometer.add_measurement(1000, 0);
    assert_eq!(as_f32(speedometer.get_speed()), 0.244_140_63);
    speedometer.add_measurement(1000, 0);
    assert_eq!(as_f32(speedometer.get_speed()), 0.122_070_31);
}

#[test]
fn test_smoother_skips_zero_duration() {
    let mut speedometer = SmootherSpeedometer::new(1, 2);
    speedometer.add_measurement(100, 10);
    assert_eq!(as_f32(speedometer.get_speed()), 50.0);
    speedometer.add_measurement(0, 999);
    assert_eq!(as_f32(speedometer.get_speed()), 50.0);
}

#[test]
fn test_ring_window_keeps_most_recent() {
    // a window of capacity 3 fed 5 samples reflects only the last 3
    let mut over = RingbufferSpeedometer::new(3);
    over.add_measurement(10, 1);
    over.add_measurement(20, 2);
    over.add_measurement(100, 10);
    over.add_measurement(150, 30);
    over.add_measurement(1000, 0);
    let mut exact = RingbufferSpeedometer::new(3);
    exact.add_measurement(100, 10);
    exact.add_measurement(150, 30);
    exact.add_measurement(1000, 0);
    assert_eq!(over.get_speed(), exact.get_speed());
    // 40 messages over 1250 ms
    assert_eq!(over.get_speed(), Rate { num: 40000, den: 1250 });
}

#[test]
fn test_instant_zero_duration_is_infinite() {
    let mut speedometer = InstantSpeedometer::new();
    speedometer.add_measurement(0, 5);
    assert!(as_f32(speedometer.get_speed()).is_infinite());
}
