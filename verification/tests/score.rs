use security_monitor::score::{
    decayed_weight, score_tab, HIDDEN_RECENT_MS, MEDIA_RECENT_MS, WASM_RECENT_MS,
    WEIGHT_CORRELATION_BONUS, WEIGHT_CPU_HIGH_ACTIVE, WEIGHT_CPU_HIGH_GLOBAL, WEIGHT_HIDDEN,
    WEIGHT_IDLE, WEIGHT_MEDIA_PAUSED, WEIGHT_MEDIA_PLAYING, WEIGHT_WASM, WEIGHT_WORKER,
    WORKER_RECENT_MS,
};
use security_monitor::single::NOT_A_NUMBER;
use security_monitor::state::TabState;

fn float_decay(ts_ms: Option<u64>, now_ms: u64, window_ms: u64, weight: f32) -> f32 {
    let ts_ms = match ts_ms {
        Some(ts_ms) => ts_ms,
        None => return 0.0,
    };
    let age_ms = now_ms.saturating_sub(ts_ms);
    if age_ms > window_ms {
        return 0.0;
    }
    weight * (1.0 - (age_ms as f32 / window_ms as f32))
}

fn float_score(
    tab: &TabState,
    now_ms: u64,
    cpu_high: bool,
    active: bool,
    seen_recent: bool,
) -> (f32, Vec<(String, f32)>) {
    let mut parts: Vec<(String, f32)> = Vec::new();
    let hidden = float_decay(tab.last_hidden_ms, now_ms, 10_000, 0.1);
    let worker = float_decay(tab.last_worker_ms, now_ms, 30_000, 0.4);
    let wasm = float_decay(tab.last_wasm_ms, now_ms, 30_000, 0.5);
    let media = tab.last_media_state.as_deref();
    let playing = if media == Some("playing") {
        float_decay(tab.last_media_ms, now_ms, 30_000, 0.3)
    } else {
        0.0
    };
    let paused = if media == Some("paused") {
        float_decay(tab.last_media_ms, now_ms, 30_000, 0.05)
    } else {
        0.0
    };
    let idle = match tab.last_user_activity_ms {
        Some(ts_ms) => now_ms.saturating_sub(ts_ms) > 15_000,
        None => true,
    };
    let idling = if idle && seen_recent && !active { 0.1 } else { 0.0 };
    for (name, weight) in [
        ("tab_hidden", hidden),
        ("worker_created", worker),
        ("wasm_instantiate", wasm),
        ("media_playing", playing),
        ("media_paused", paused),
        ("idle", idling),
    ] {
        if weight > 0.0 {
            parts.push((name.to_string(), weight));
        }
    }
    let compute = worker > 0.0 || wasm > 0.0 || playing > 0.0;
    if cpu_high {
        if active {
            parts.push(("cpu_high_active".to_string(), 0.8));
        } else if compute {
            parts.push(("cpu_high_global".to_string(), 0.5));
        }
    }
    if cpu_high && compute && hidden > 0.0 {
        parts.push(("correlation_bonus".to_string(), 0.4));
    }
    let mut score = 0.0f32;
    for (_, weight) in &parts {
        score += weight;
    }
    (score, parts)
}

#[test]
fn weights_are_the_nearest_numbers() {
    assert_eq!(WEIGHT_HIDDEN, 0.1f32.to_bits());
    assert_eq!(WEIGHT_WORKER, 0.4f32.to_bits());
    assert_eq!(WEIGHT_WASM, 0.5f32.to_bits());
    assert_eq!(WEIGHT_MEDIA_PLAYING, 0.3f32.to_bits());
    assert_eq!(WEIGHT_MEDIA_PAUSED, 0.05f32.to_bits());
    assert_eq!(WEIGHT_IDLE, 0.1f32.to_bits());
    assert_eq!(WEIGHT_CPU_HIGH_ACTIVE, 0.8f32.to_bits());
    assert_eq!(WEIGHT_CPU_HIGH_GLOBAL, 0.5f32.to_bits());
    assert_eq!(WEIGHT_CORRELATION_BONUS, 0.4f32.to_bits());
}

#[test]
fn decay_agrees_with_the_hardware() {
    let now: u64 = 1_700_000_000_000;
    for (window, weight) in [
        (HIDDEN_RECENT_MS, 0.1f32),
        (WORKER_RECENT_MS, 0.4),
        (WASM_RECENT_MS, 0.5),
        (MEDIA_RECENT_MS, 0.3),
        (MEDIA_RECENT_MS, 0.05),
        (3, 1.5),
        (1 << 40, 0.7),
    ] {
        let mut age: u64 = 0;
        while age < 31_000 {
            let expected = float_decay(Some(now - age), now, window, weight);
            let found = decayed_weight(Some(now - age), now, window, weight.to_bits());
            assert_eq!(found, expected.to_bits());
            age += 7;
        }
    }
}

#[test]
fn decay_starts_full_falls_and_ends() {
    let weight = WEIGHT_WORKER;
    assert_eq!(decayed_weight(Some(100), 100, 30_000, weight), weight);
    assert_eq!(decayed_weight(Some(200), 100, 30_000, weight), weight);
    assert_eq!(decayed_weight(Some(0), 15_000, 30_000, weight), 0.2f32.to_bits());
    assert!(decayed_weight(Some(0), 29_999, 30_000, weight) > 0);
    assert_eq!(decayed_weight(Some(0), 30_000, 30_000, weight), 0);
    assert_eq!(decayed_weight(Some(0), 30_001, 30_000, weight), 0);
    assert_eq!(decayed_weight(None, 0, 30_000, weight), 0);
    let mut last = weight;
    for now in 0..30_000u64 {
        let left = decayed_weight(Some(0), now, 30_000, weight);
        assert!(left <= last && left > 0);
        last = left;
    }
}

#[test]
fn decay_of_any_weight() {
    for weight in [
        -0.0f32,
        -0.4,
        -1.5,
        f32::MIN,
        f32::MAX,
        1.0e-45,
        -1.0e-45,
        f32::INFINITY,
        f32::NEG_INFINITY,
    ] {
        for (age, window) in [(0u64, 30_000u64), (7_777, 30_000), (30_000, 30_000), (30_001, 30_000), (1, 3)] {
            let expected = float_decay(Some(50_000 - age), 50_000, window, weight);
            let found = decayed_weight(Some(50_000 - age), 50_000, window, weight.to_bits());
            if expected.is_nan() {
                assert_eq!(found, NOT_A_NUMBER);
            } else {
                assert_eq!(found, expected.to_bits());
            }
        }
    }
    assert_eq!(decayed_weight(Some(0), 5, 10, (-0.4f32).to_bits()), (-0.2f32).to_bits());
    assert_eq!(decayed_weight(Some(0), 10, 10, (-0.4f32).to_bits()), (-0.0f32).to_bits());
    assert_eq!(decayed_weight(Some(0), 10, 10, f32::INFINITY.to_bits()), NOT_A_NUMBER);
    for weight in [f32::NAN.to_bits(), 0x7f80_0001, 0xffff_ffff] {
        assert_eq!(decayed_weight(Some(0), 5, 10, weight), NOT_A_NUMBER);
        assert_eq!(decayed_weight(Some(0), 11, 10, weight), 0);
        assert_eq!(decayed_weight(None, 11, 10, weight), 0);
    }
}

#[test]
fn decay_in_no_window_is_no_number() {
    assert_eq!(decayed_weight(Some(5), 5, 0, WEIGHT_WASM), NOT_A_NUMBER);
    assert_eq!(decayed_weight(Some(4), 5, 0, WEIGHT_WASM), 0);
}

#[test]
fn unknown_tab_scores_nothing() {
    let details = score_tab(&TabState::default(), 1_000, false, false, false);
    assert_eq!(details.score, 0);
    assert!(details.reasons.is_empty());
    assert!(details.contributions.is_empty());
    assert!(!details.compute_present && !details.hidden_present && !details.idle_present);
}

#[test]
fn hidden_worker_under_load_scores_in_full() {
    let mut tab = TabState::default();
    tab.last_hidden_ms = Some(50_000);
    tab.last_worker_ms = Some(50_000);
    let details = score_tab(&tab, 50_000, true, false, true);
    assert_eq!(
        details.reasons,
        vec!["tab_hidden", "worker_created", "idle", "cpu_high_global", "correlation_bonus"]
    );
    let expected: f32 = 0.1 + 0.4 + 0.1 + 0.5 + 0.4;
    assert_eq!(details.score, expected.to_bits());
    assert!(details.compute_present && details.hidden_present && details.idle_present);
}

#[test]
fn active_tab_is_not_idle() {
    let mut tab = TabState::default();
    tab.last_wasm_ms = Some(1_000);
    let details = score_tab(&tab, 1_000, true, true, true);
    assert_eq!(details.reasons, vec!["wasm_instantiate", "cpu_high_active"]);
    assert_eq!(details.score, (0.5f32 + 0.8).to_bits());
    assert!(!details.idle_present);
}

#[test]
fn idle_after_more_than_fifteen_seconds() {
    let mut tab = TabState::default();
    tab.last_user_activity_ms = Some(1_000);
    assert!(!score_tab(&tab, 16_000, false, false, true).idle_present);
    assert!(score_tab(&tab, 16_001, false, false, true).idle_present);
    assert!(!score_tab(&tab, 16_001, false, false, false).idle_present);
    assert!(!score_tab(&tab, 16_001, false, true, true).idle_present);
}

#[test]
fn paused_media_is_no_computation() {
    let mut tab = TabState::default();
    tab.last_media_ms = Some(0);
    tab.last_media_state = Some("paused".to_string());
    let paused = score_tab(&tab, 0, true, false, false);
    assert_eq!(paused.reasons, vec!["media_paused"]);
    assert!(!paused.compute_present);
    tab.last_media_state = Some("playing".to_string());
    let playing = score_tab(&tab, 0, true, false, false);
    assert_eq!(playing.reasons, vec!["media_playing", "cpu_high_global"]);
    assert!(playing.compute_present);
    tab.last_media_state = Some("stalled".to_string());
    assert!(score_tab(&tab, 0, true, false, false).reasons.is_empty());
}

#[test]
fn scores_agree_with_the_hardware() {
    let now: u64 = 100_000;
    let mut seed: u64 = 17;
    let mut pick = |n: u64| {
        seed = seed.wrapping_mul(6364136223846793005).wrapping_add(1442695040888963407);
        (seed >> 33) % n
    };
    for _ in 0..3000 {
        let mut stamp = || {
            if pick(4) == 0 {
                None
            } else {
                Some(now - pick(40_000))
            }
        };
        let mut tab = TabState::default();
        tab.last_hidden_ms = stamp();
        tab.last_worker_ms = stamp();
        tab.last_wasm_ms = stamp();
        tab.last_media_ms = stamp();
        tab.last_user_activity_ms = stamp();
        tab.last_media_state = match pick(3) {
            0 => None,
            1 => Some("playing".to_string()),
            _ => Some("paused".to_string()),
        };
        let (cpu_high, active, seen) = (pick(2) == 0, pick(2) == 0, pick(2) == 0);
        let (score, parts) = float_score(&tab, now, cpu_high, active, seen);
        let details = score_tab(&tab, now, cpu_high, active, seen);
        assert_eq!(details.score, score.to_bits());
        assert_eq!(details.contributions.len(), parts.len());
        assert_eq!(details.reasons.len(), parts.len());
        for i in 0..parts.len() {
            assert_eq!(details.contributions[i].name, parts[i].0);
            assert_eq!(details.contributions[i].weight, parts[i].1.to_bits());
            assert_eq!(details.reasons[i], parts[i].0);
        }
    }
}
