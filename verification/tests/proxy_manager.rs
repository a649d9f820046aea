use clash_core::proxy_manager::ProxyManager;

const NAME: &str = "DIRECT";

#[test]
fn test_rolling_window() {
    let mut m = ProxyManager::new();
    for i in 0..11u64 {
        m.record_probe(NAME, i, Some(((i + 1) as u16, 0)));
    }
    let history = m.delay_history(NAME);
    assert_eq!(history.len(), 10);
    assert!(m.alive(NAME));
    assert_eq!(m.last_delay(NAME), 11);
    // the very first record was evicted, the window is oldest-first
    assert_eq!(history[0].delay, 2);
    assert_eq!(history[9].delay, 11);
}

#[test]
fn test_failed_probe_state() {
    let mut m = ProxyManager::new();
    m.record_probe(NAME, 1, None);
    assert!(!m.alive(NAME));
    assert_eq!(m.last_delay(NAME), u16::MAX);
    let history = m.delay_history(NAME);
    assert_eq!(history.len(), 1);
    assert_eq!(history[0].delay, 0);
    assert_eq!(history[0].mean_delay, 0);
}

#[test]
fn test_report_alive_override() {
    let mut m = ProxyManager::new();
    m.record_probe(NAME, 1, Some((50, 60)));
    assert!(m.alive(NAME));
    assert_eq!(m.last_delay(NAME), 50);

    let before = m.delay_history(NAME);
    m.report_alive(NAME, false);
    assert!(!m.alive(NAME));
    assert_eq!(m.last_delay(NAME), u16::MAX);
    let after = m.delay_history(NAME);
    assert_eq!(before, after);

    m.report_alive(NAME, true);
    assert!(m.alive(NAME));
    assert_eq!(m.last_delay(NAME), 50);
}

#[test]
fn test_unknown_channel_defaults() {
    let m = ProxyManager::new();
    assert!(!m.alive(NAME));
    assert_eq!(m.last_delay(NAME), u16::MAX);
    assert!(m.delay_history(NAME).is_empty());
}

#[test]
fn test_alive_without_history() {
    let mut m = ProxyManager::new();
    m.report_alive(NAME, true);
    assert!(m.alive(NAME));
    // alive but nothing measured yet: the defensive sentinel
    assert_eq!(m.last_delay(NAME), u16::MAX);
    assert!(m.delay_history(NAME).is_empty());
}

#[test]
fn test_mean_delay_recorded() {
    let mut m = ProxyManager::new();
    m.record_probe(NAME, 7, Some((10, 20)));
    let history = m.delay_history(NAME);
    assert_eq!(history[0].time, 7);
    assert_eq!(history[0].delay, 10);
    assert_eq!(history[0].mean_delay, 20);
}

#[test]
fn test_channels_independent() {
    let mut m = ProxyManager::new();
    m.record_probe("a", 1, Some((5, 5)));
    m.record_probe("b", 2, None);
    assert!(m.alive("a"));
    assert!(!m.alive("b"));
    assert_eq!(m.last_delay("a"), 5);
    assert_eq!(m.last_delay("b"), u16::MAX);
    m.report_alive("b", true);
    assert!(m.alive("a"));
    assert!(m.alive("b"));
}
