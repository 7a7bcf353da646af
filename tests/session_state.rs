use swarm_native::health::{check_health, SourceStatus};
use swarm_native::kinematics::{AtomicF32, Kinematics};

#[test]
fn health_is_dead_before_start() {
    assert!(!check_health(SourceStatus::NotStarted));
}

#[test]
fn health_is_alive_while_running() {
    assert!(check_health(SourceStatus::Running));
}

#[test]
fn health_is_dead_after_exit_or_failed_poll() {
    assert!(!check_health(SourceStatus::Exited));
    assert!(!check_health(SourceStatus::Unknown));
}

#[test]
fn atomic_scalar_round_trips_bit_patterns() {
    let a = AtomicF32::new(1.5f32.to_bits());
    assert_eq!(f32::from_bits(a.load()), 1.5);
    a.store((-0.25f32).to_bits());
    assert_eq!(f32::from_bits(a.load()), -0.25);
}

#[test]
fn atomic_scalar_fills_a_cache_line() {
    assert_eq!(std::mem::size_of::<AtomicF32>(), 64);
}

#[test]
fn kinematics_start_at_zero() {
    let k = Kinematics::new();
    for s in [&k.px, &k.py, &k.vx, &k.vy] {
        assert_eq!(f32::from_bits(s.load()), 0.0);
    }
}
