use wmx::title_events::{
    animated, semantic_signature, trim, whitespace, without_elapsed, Coalescer, SECOND,
};

#[test]
fn whitespace_and_trim() {
    assert!(whitespace(' ') && whitespace('\t') && whitespace('\n') && whitespace('\r'));
    assert!(!whitespace('\u{a0}'));
    assert_eq!(trim("  build \r\n"), "build");
    assert_eq!(trim(" \t "), "");
}

#[test]
fn animation_marks() {
    assert!(animated('\u{2800}') && animated('\u{28ff}') && animated('✳') && animated('🤖'));
    assert!(!animated('*') && !animated('a'));
}

#[test]
fn elapsed_time_is_removed() {
    assert_eq!(without_elapsed("Working 12s"), "Working");
    assert_eq!(without_elapsed("Working 1m 30s  "), "Working");
    assert_eq!(without_elapsed("Working12s"), "Working12s");
    assert_eq!(without_elapsed("5s"), "5s");
    assert_eq!(without_elapsed("Deploys"), "Deploys");
}

#[test]
fn signatures_normalize_spinners_and_timing() {
    assert_eq!(semantic_signature("⠋ Working 3s"), "Working");
    assert_eq!(semantic_signature("✳ Working..."), "Working");
    assert_eq!(semantic_signature("✳ Thinking..."), "Thinking...");
    assert_eq!(semantic_signature("*  build   step "), "build step");
    assert_eq!(semantic_signature("plain  title 3s"), "plain title 3s");
    assert_eq!(
        semantic_signature("[✳] Action Required: approve 4s"),
        "[action-required] Action Required: approve"
    );
    assert_eq!(
        semantic_signature("[ ! ]action required now"),
        "[action-required] action required now"
    );
}

#[test]
fn change_is_published_after_a_quiet_second() {
    let mut titles = Coalescer::new();
    titles.observe("Build", 0);
    assert_eq!(titles.take_due(SECOND - 1), None);
    assert_eq!(titles.take_due(SECOND), Some("Build".to_string()));
    assert_eq!(titles.last_emitted(), Some("Build"));
    assert_eq!(titles.take_due(5 * SECOND), None);
}

#[test]
fn blank_and_repeated_titles_are_ignored() {
    let mut titles = Coalescer::default();
    titles.observe("   ", 0);
    assert_eq!(titles.take_due(10 * SECOND), None);
    titles.observe("Build", 0);
    titles.observe(" Build ", SECOND / 2);
    assert_eq!(titles.take_due(SECOND), Some("Build".to_string()));
}

#[test]
fn burst_settles_within_six_seconds() {
    let mut titles = Coalescer::new();
    let names = ["a", "b", "c", "d", "e", "f", "g", "h", "i", "j", "k", "l"];
    for (i, name) in names.iter().enumerate() {
        let now = i as u64 * SECOND / 2;
        assert_eq!(titles.take_due(now), None);
        titles.observe(name, now);
    }
    assert_eq!(titles.take_due(6 * SECOND - 1), None);
    assert_eq!(titles.take_due(6 * SECOND), Some("l".to_string()));
}

#[test]
fn spinner_changes_publish_a_heartbeat() {
    let mut titles = Coalescer::new();
    titles.observe("⠋ Working", 0);
    assert_eq!(titles.take_due(SECOND), Some("⠋ Working".to_string()));
    titles.observe("⠙ Working", SECOND + SECOND / 2);
    assert_eq!(titles.take_due(3 * SECOND - 1), None);
    assert_eq!(titles.take_due(3 * SECOND), Some("⠙ Working".to_string()));
    assert_eq!(titles.take_due(10 * SECOND), None);
}

#[test]
fn return_to_the_published_title_is_not_repeated() {
    let mut titles = Coalescer::new();
    titles.observe("Build", 0);
    assert_eq!(titles.take_due(SECOND), Some("Build".to_string()));
    titles.observe("Test", 2 * SECOND);
    titles.observe("Build", 2 * SECOND + 1);
    assert_eq!(titles.take_due(4 * SECOND), None);
    assert_eq!(titles.last_emitted(), Some("Build"));
}

#[test]
fn spinner_ticks_do_not_extend_the_burst() {
    let mut titles = Coalescer::new();
    titles.observe("⠋ Working 1s", 0);
    titles.observe("⠙ Working 2s", 9 * SECOND / 10);
    assert_eq!(titles.take_due(SECOND), Some("⠙ Working 2s".to_string()));
}

#[test]
fn last_emitted_is_the_latest_title_taken() {
    let mut titles = Coalescer::new();
    assert_eq!(titles.last_emitted(), None);
    titles.observe("Build", 0);
    assert_eq!(titles.last_emitted(), None);
    assert_eq!(titles.take_due(SECOND / 2), None);
    assert_eq!(titles.last_emitted(), None);
    assert_eq!(titles.take_due(SECOND), Some("Build".to_string()));
    titles.observe("Test", 2 * SECOND);
    assert_eq!(titles.last_emitted(), Some("Build"));
    assert_eq!(titles.take_due(3 * SECOND), Some("Test".to_string()));
    assert_eq!(titles.last_emitted(), Some("Test"));
    assert_eq!(titles.take_due(9 * SECOND), None);
    assert_eq!(titles.last_emitted(), Some("Test"));
}
