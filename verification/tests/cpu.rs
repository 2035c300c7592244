use security_monitor::cpu::{
    chrome_cpu_pct, cpu_high, is_browser, record_sample, sample_cpu, ProcessLoad,
    CPU_HIGH_THRESHOLD_PCT,
};
use security_monitor::state::CorrelationState;

fn load(name: &str, cpu_usage: f32) -> ProcessLoad {
    ProcessLoad { name: name.to_string(), cpu_usage: cpu_usage.to_bits() }
}

#[test]
fn threshold_is_twenty_five_percent() {
    assert_eq!(CPU_HIGH_THRESHOLD_PCT, 25.0f32.to_bits());
    for (cpu_pct, high) in [
        (25.0f32, true),
        (24.999998, false),
        (0.0, false),
        (-0.0, false),
        (400.0, true),
        (-30.0, false),
        (f32::INFINITY, true),
        (f32::NEG_INFINITY, false),
        (f32::NAN, false),
        (-f32::NAN, false),
    ] {
        let mut state = CorrelationState::default();
        record_sample(&mut state, cpu_pct.to_bits(), 7);
        assert_eq!(state.cpu_high_since_ms, if high { Some(7) } else { None });
        assert_eq!(state.last_cpu_pct, cpu_pct.to_bits());
    }
}

#[test]
fn load_is_high_after_ten_seconds() {
    let mut state = CorrelationState::default();
    assert!(!cpu_high(&state, 1_000_000));
    sample_cpu(&mut state, 30.0f32.to_bits(), 1_000);
    sample_cpu(&mut state, 90.0f32.to_bits(), 3_000);
    assert_eq!(state.cpu_high_since_ms, Some(1_000));
    assert!(!cpu_high(&state, 10_999));
    assert!(cpu_high(&state, 11_000));
    assert!(!cpu_high(&state, 0));
}

#[test]
fn one_low_sample_starts_anew() {
    let mut state = CorrelationState::default();
    sample_cpu(&mut state, 30.0f32.to_bits(), 0);
    sample_cpu(&mut state, 3.0f32.to_bits(), 20_000);
    assert!(!cpu_high(&state, 1_000_000));
    sample_cpu(&mut state, 30.0f32.to_bits(), 22_000);
    assert!(!cpu_high(&state, 31_999));
    assert!(cpu_high(&state, 32_000));
}

#[test]
fn samples_enter_the_history() {
    let mut state = CorrelationState::default();
    let alerts = sample_cpu(&mut state, 12.5f32.to_bits(), 42);
    assert!(alerts.is_empty());
    assert_eq!(state.events.len(), 1);
    assert_eq!(state.events[0].event_type, "cpu_sample");
    assert_eq!(state.events[0].ts_ms, 42);
    assert_eq!(state.events[0].origin, None);
}

#[test]
fn browser_processes_by_name() {
    for name in ["chrome", "Chrome", "Google Chrome Helper", "CHROMIUM", "chromium-browser", "xchromex"] {
        assert!(is_browser(name), "{}", name);
    }
    for name in ["", "chrom", "chro me", "firefox", "chromiu", "cHröme"] {
        assert!(!is_browser(name), "{}", name);
    }
}

#[test]
fn browser_load_is_summed_up() {
    assert_eq!(chrome_cpu_pct(&vec![load("chrome", 12.5)]), 12.5f32.to_bits());
    let usages = [0.1f32, 17.3, 3.7, 0.0, 99.9, 1e-8];
    let mut processes = Vec::new();
    for usage in usages {
        processes.push(load("chrome", usage));
        processes.push(load("firefox", 50.0));
    }
    let expected: f32 = usages.iter().sum();
    assert_eq!(chrome_cpu_pct(&processes), expected.to_bits());
}

#[test]
fn no_browser_process_gives_the_empty_sum() {
    let expected: f32 = Vec::<f32>::new().iter().sum();
    assert_eq!(chrome_cpu_pct(&Vec::new()), expected.to_bits());
    assert_eq!(chrome_cpu_pct(&vec![load("bash", 80.0)]), expected.to_bits());
}
