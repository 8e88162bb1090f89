//! What the spinner writes.
use sprout::progress::{message_frame, Reporter, CLEAR, MAX_LABEL};

#[test]
fn the_spinner_shows_what_it_is_told() {
    let mut r = Reporter::new(3, true);
    assert!(r.animates());
    assert_eq!(r.frame(0).unwrap(), "\r\x1b[K⠋ cloning [0/3] ");
    r.set("node_modules");
    r.inc();
    assert_eq!(r.frame(11).unwrap(), "\r\x1b[K⠙ cloning [1/3] node_modules");
    assert_eq!(r.frame(19).unwrap(), "\r\x1b[K⠏ cloning [1/3] node_modules");
    r.finish();
    assert!(r.frame(2).is_none());
    assert_eq!(CLEAR, "\r\x1b[K");
}

#[test]
fn every_turn_has_its_glyph() {
    let glyphs = ["⠋", "⠙", "⠹", "⠸", "⠼", "⠴", "⠦", "⠧", "⠇", "⠏"];
    for n in 0..25 {
        assert_eq!(message_frame("removing x", n), format!("\r\x1b[K{} removing x", glyphs[n % 10]));
    }
}

#[test]
fn long_labels_are_cut() {
    let mut r = Reporter::new(1, true);
    let fits = "é".repeat(MAX_LABEL);
    r.set(&fits);
    assert_eq!(r.label, fits);
    r.set(&"é".repeat(MAX_LABEL + 1));
    assert_eq!(r.label, format!("{}…", "é".repeat(47)));
    assert_eq!(r.label.chars().count(), 48);
}

#[test]
fn nothing_is_drawn_without_a_terminal() {
    let mut r = Reporter::new(3, false);
    assert!(!r.animates());
    r.set("label");
    assert_eq!(r.label, "");
    assert_eq!(r.warn("careful"), "careful\n");
    assert!(!Reporter::new(0, true).animates());
    assert_eq!(Reporter::new(0, true).warn("careful"), "\r\x1b[Kcareful\n");
}

#[test]
fn no_entry_is_lost_in_the_count() {
    let mut r = Reporter::new(2, true);
    for _ in 0..1000 {
        r.inc();
    }
    // The number of entries is no limit.
    assert_eq!(r.done, 1000);
    assert_eq!(r.total, 2);
    r.done = usize::MAX - 1;
    for _ in 0..5 {
        r.inc();
    }
    assert_eq!(r.done, 3);
}

#[test]
fn the_count_wraps() {
    let mut r = Reporter::new(1, true);
    r.done = usize::MAX;
    r.inc();
    assert_eq!(r.done, 0);
}
